//! How library symbols and footprints are found and made self-contained.
use crate::flatten::{
    begins, chain_ends, chain_is_finite, colon_from, colon_part, extends_of, flat_symbol, inherited,
    inherited_all, joined, lemma_chain_length, merged, name_part, own_properties, parent_id,
    parent_of, tag_index, unit_name, unit_renamed,
};
use crate::fplib::{
    candidates, expanded, id_parts, table_uri, value_from, variable_text, with_value, Platform,
};
use crate::laws::reading::{headed, item_is};
use crate::laws::text::{law_search_finds_the_first, stands};
use crate::parser::parsed;
use crate::routing::paren_end;
use crate::symlib::{
    defined_in, extends_name, file_from, kept, replace_all, replace_first, resolved, resolved_from,
    symbol_block, symbol_places, symbol_tree, FileText,
};
use crate::text::{
    bytes_of, find_at, lemma_ascii_byte, lemma_find, lemma_find_is, occurs_at, text_of,
};
use crate::tree::{child, tagged, Tree};
use vstd::prelude::*;
use vstd::string::*;
use vstd::utf8::*;

verus! {

// Ids and files
/// An id has two parts exactly where it has a colon, and the first colon parts
/// them.
pub proof fn law_an_id_is_parted_at_its_first_colon(
    library: Seq<char>,
    name: Seq<char>,
    id: Seq<char>,
)
    requires
        forall|k: int| 0 <= k < library.len() ==> library[k] != ':',
        forall|k: int| 0 <= k < id.len() ==> id[k] != ':',
    ensures
        id_parts(library + ":"@ + name) == Some((library, name)),
        id_parts(id) is None,
{
    crate::fplib::law_id_parts_join(library, name);
    crate::text::lemma_no_byte(id, ':');
    let h = bytes_of(id);
    let c = bytes_of(":"@);
    reveal_strlit(":");
    assert(":"@ =~= seq![':']);
    lemma_ascii_byte(':');
    lemma_find(h, c, 0);
    if let Some(i) = find_at(h, c, 0) {
        assert(h.subrange(i, i + 1)[0] == h[i]);
    }
}

/// The file of a symbol, or of a library, is the first one in its directory.
pub proof fn law_the_first_file_is_taken(
    dir: Seq<FileText>,
    f: FileText,
    library: Seq<char>,
    symbol: Option<Seq<char>>,
)
    ensures
        file_from(dir.push(f), library, symbol, 0) == (match file_from(dir, library, symbol, 0) {
            Some(c) => Some(c),
            None => if f.library == library && f.symbol == symbol {
                Some(f.content)
            } else {
                None
            },
        }),
        file_from(Seq::empty(), library, symbol, 0) is None,
{
    lemma_file_push(dir, f, library, symbol, 0);
}

proof fn lemma_file_push(
    dir: Seq<FileText>,
    f: FileText,
    library: Seq<char>,
    symbol: Option<Seq<char>>,
    k: int,
)
    requires
        0 <= k <= dir.len(),
    ensures
        file_from(dir.push(f), library, symbol, k) == (match file_from(dir, library, symbol, k) {
            Some(c) => Some(c),
            None => if f.library == library && f.symbol == symbol {
                Some(f.content)
            } else {
                None
            },
        }),
    decreases dir.len() - k,
{
    let v = dir.push(f);
    if k < dir.len() {
        assert(v[k] == dir[k]);
        lemma_file_push(dir, f, library, symbol, k + 1);
    } else {
        assert(v[k] == f);
        assert(file_from(v, library, symbol, k + 1) is None);
    }
}

/// A symbol is taken from the first directory that has it, and there from its own
/// file before that of its library.
pub proof fn law_directories_are_searched_in_order(
    dirs: Seq<Seq<FileText>>,
    library: Seq<char>,
    name: Seq<char>,
    k: int,
)
    requires
        0 <= k < dirs.len(),
    ensures
        ({
            let own = defined_in(file_from(dirs[k], library, Some(name), 0), library, name);
            let all = defined_in(file_from(dirs[k], library, None, 0), library, name);
            resolved_from(dirs, library, name, k) == (if own is Some {
                own
            } else if all is Some {
                all
            } else {
                resolved_from(dirs, library, name, k + 1)
            })
        }),
        resolved_from(dirs, library, name, dirs.len() as int) is None,
{
}

/// An id without a colon is not resolved; another one is searched for from the
/// first directory on.
pub proof fn law_resolving_starts_at_the_first_directory(
    dirs: Seq<Seq<FileText>>,
    lib_id: Seq<char>,
)
    ensures
        resolved(dirs, lib_id) == (match id_parts(lib_id) {
            None => None::<Seq<u8>>,
            Some(p) => resolved_from(dirs, p.0, p.1, 0),
        }),
        symbol_tree(dirs, lib_id) == (match resolved(dirs, lib_id) {
            None => None::<Tree>,
            Some(b) => if parsed(text_of(b)) is Ok {
                Some(parsed(text_of(b))->Ok_0)
            } else {
                None
            },
        }),
{
}

/// The definition of a symbol in a file begins with its name and runs to the
/// parenthesis that closes it; in a schematic the library stands before the name
/// and before the name of the parent.
pub proof fn law_a_definition_is_cut_out_and_qualified(
    c: Seq<char>,
    library: Seq<char>,
    name: Seq<char>,
    s: int,
)
    ensures
        defined_in(None, library, name) is None,
        (forall|j: int| !#[trigger] stands(bytes_of(c), bytes_of("(symbol \""@ + name + "\""@), j))
            ==> defined_in(Some(c), library, name) is None,
        0 <= s && stands(bytes_of(c), bytes_of("(symbol \""@ + name + "\""@), s) && (forall|j: int|
            0 <= j < s ==> !#[trigger] stands(
                bytes_of(c),
                bytes_of("(symbol \""@ + name + "\""@),
                j,
            )) ==> match paren_end(bytes_of(c), s, 0) {
            None => defined_in(Some(c), library, name) is None,
            Some(e) => {
                let block = bytes_of(c).subrange(s, e + 1);
                let r = replace_first(
                    block,
                    bytes_of("(symbol \""@ + name + "\""@),
                    bytes_of("(symbol \""@ + library + ":"@ + name + "\""@),
                );
                defined_in(Some(c), library, name) == Some(
                    match extends_name(r) {
                        None => r,
                        Some(p) => replace_all(
                            r,
                            bytes_of("(extends \""@ + p + "\")"@),
                            bytes_of("(extends \""@ + library + ":"@ + p + "\")"@),
                        ),
                    },
                )
            },
        },
{
    let h = bytes_of(c);
    let m = bytes_of("(symbol \""@ + name + "\""@);
    law_search_finds_the_first(h, m, 0);
    if let Some(i) = find_at(h, m, 0) {
        assert(stands(h, m, i));
    }
    assert("(symbol \""@ + library + ":"@ + name + "\""@ =~= "(symbol \""@ + (library + ":"@ + name)
        + "\""@);
    if let Some(e) = paren_end(h, s, 0) {
        let block = h.subrange(s, e + 1);
        let r = replace_first(
            block,
            m,
            bytes_of("(symbol \""@ + library + ":"@ + name + "\""@),
        );
        if let Some(p) = extends_name(r) {
            assert("(extends \""@ + library + ":"@ + p + "\")"@ =~= "(extends \""@ + (library + ":"@
                + p) + "\")"@);
        }
    }
}

/// The parent that a definition names is what stands in quotes behind its first
/// `extends`.
pub proof fn law_a_definition_names_its_parent(h: Seq<u8>, p: int, e: int)
    ensures
        (forall|j: int| !#[trigger] stands(h, bytes_of("(extends \""@), j)) ==> extends_name(h) is None,
        0 <= p && stands(h, bytes_of("(extends \""@), p) && (forall|j: int|
            0 <= j < p ==> !#[trigger] stands(h, bytes_of("(extends \""@), j)) && p + 10 <= e < h.len()
            && h[e] == 34 && (forall|j: int| p + 10 <= j < e ==> h[j] != 34) ==> extends_name(h)
            == Some(text_of(h.subrange(p + 10, e))),
{
    let m = bytes_of("(extends \""@);
    let q = bytes_of("\""@);
    reveal_strlit("(extends \"");
    reveal_strlit("\"");
    is_ascii_chars_encode_utf8("(extends \""@);
    is_ascii_chars_encode_utf8("\""@);
    assert(q =~= seq![34u8]);
    assert(m.len() == 10);
    law_search_finds_the_first(h, m, 0);
    if let Some(i) = find_at(h, m, 0) {
        assert(stands(h, m, i));
    }
    if p + 10 <= e < h.len() && 0 <= p && h[e] == 34 && (forall|j: int|
        p + 10 <= j < e ==> h[j] != 34) {
        assert(h.subrange(e, e + 1) =~= q);
        assert forall|j: int| p + 10 <= j < e implies !occurs_at(h, q, j) by {
            if occurs_at(h, q, j) {
                assert(h.subrange(j, j + 1)[0] == h[j]);
            }
        }
        lemma_find_is(h, q, p + 10, e);
    }
}

/// One replacement replaces the first occurrence; replacing everywhere goes on
/// behind it.
pub proof fn law_text_is_replaced(h: Seq<u8>, p: Seq<u8>, t: Seq<u8>, i: int)
    requires
        p.len() > 0,
    ensures
        (forall|j: int| !#[trigger] stands(h, p, j)) ==> replace_first(h, p, t) == h && replace_all(
            h,
            p,
            t,
        ) == h,
        0 <= i && stands(h, p, i) && (forall|j: int| 0 <= j < i ==> !#[trigger] stands(h, p, j)) ==> {
            &&& replace_first(h, p, t) == h.subrange(0, i) + t + h.subrange(
                i + p.len(),
                h.len() as int,
            )
            &&& replace_all(h, p, t) == h.subrange(0, i) + t + replace_all(
                h.subrange(i + p.len(), h.len() as int),
                p,
                t,
            )
        },
{
    law_search_finds_the_first(h, p, 0);
    if let Some(j) = find_at(h, p, 0) {
        assert(stands(h, p, j));
    }
}

// Directories
/// Symbols are searched for in the named directory first, then in those of the
/// platform.
pub proof fn law_symbol_directories(named: Seq<char>)
    ensures
        symbol_places(Some(named), Platform::Unix) == seq![
            named,
            "/usr/share/kicad/symbols"@,
            "/usr/local/share/kicad/symbols"@,
        ],
        symbol_places(None, Platform::Unix) == seq![
            "/usr/share/kicad/symbols"@,
            "/usr/local/share/kicad/symbols"@,
        ],
        symbol_places(None, Platform::MacOs) == symbol_places(None, Platform::Unix),
        symbol_places(Some(named), Platform::MacOs) == symbol_places(Some(named), Platform::Unix),
        symbol_places(None, Platform::Windows) == seq![
            "C:\\KiCad\\10.0\\share\\kicad\\symbols"@,
            "C:\\Program Files\\KiCad\\10.0\\share\\kicad\\symbols"@,
            "C:\\KiCad\\9.0\\share\\kicad\\symbols"@,
            "C:\\Program Files\\KiCad\\9.0\\share\\kicad\\symbols"@,
        ],
        symbol_places(Some(named), Platform::Windows) == seq![named] + symbol_places(
            None,
            Platform::Windows,
        ),
{
    let unix = seq!["/usr/share/kicad/symbols"@, "/usr/local/share/kicad/symbols"@];
    assert(symbol_places(None, Platform::Unix) =~= unix);
    assert(symbol_places(Some(named), Platform::Unix) =~= seq![
        named,
        "/usr/share/kicad/symbols"@,
        "/usr/local/share/kicad/symbols"@,
    ]);
    assert(symbol_places(None, Platform::MacOs) =~= unix);
    assert(symbol_places(Some(named), Platform::MacOs) =~= symbol_places(
        Some(named),
        Platform::Unix,
    ));
    assert(symbol_places(None, Platform::Windows) =~= seq![
        "C:\\KiCad\\10.0\\share\\kicad\\symbols"@,
        "C:\\Program Files\\KiCad\\10.0\\share\\kicad\\symbols"@,
        "C:\\KiCad\\9.0\\share\\kicad\\symbols"@,
        "C:\\Program Files\\KiCad\\9.0\\share\\kicad\\symbols"@,
    ]);
    assert(symbol_places(Some(named), Platform::Windows) =~= seq![named] + symbol_places(
        None,
        Platform::Windows,
    ));
}

/// Directories that are there are kept in their order, each once.
pub proof fn law_directories_are_kept_in_order(dirs: Seq<Seq<char>>, there: Seq<bool>, k: int)
    requires
        0 <= k < dirs.len(),
        there.len() == dirs.len(),
    ensures
        kept(dirs, there, 0).len() == 0,
        kept(dirs, there, k + 1) == (if there[k] && !(exists|i: int|
            0 <= i < kept(dirs, there, k).len() && kept(dirs, there, k)[i] == dirs[k]) {
            kept(dirs, there, k).push(dirs[k])
        } else {
            kept(dirs, there, k)
        }),
{
}

/// The installed footprint directories.
pub proof fn law_footprint_directories()
    ensures
        crate::fplib::installed_footprints(Platform::MacOs) == seq![
            "/Applications/KiCad/KiCad.app/Contents/SharedSupport/footprints"@,
        ],
        crate::fplib::installed_footprints(Platform::Windows) == seq![
            "C:\\Program Files\\KiCad\\10.0\\share\\kicad\\footprints"@,
            "C:\\Program Files\\KiCad\\9.0\\share\\kicad\\footprints"@,
        ],
        crate::fplib::installed_footprints(Platform::Unix) == seq![
            "/usr/share/kicad/footprints"@,
            "/usr/local/share/kicad/footprints"@,
        ],
{
}

// Variables
/// A variable has the value of the first pair with its name. A footprint
/// directory has a default; any other name that is not set gives nothing.
pub proof fn law_a_variable_has_its_value(
    vars: Seq<(Seq<char>, Seq<char>)>,
    name: Seq<char>,
    dir: Seq<char>,
    i: int,
)
    ensures
        0 <= i < vars.len() && vars[i].0 == name && (forall|j: int|
            0 <= j < i ==> (#[trigger] vars[j]).0 != name) ==> {
            &&& value_from(vars, name, 0) == Some(vars[i].1)
            &&& variable_text(name, vars, Some(dir)) == vars[i].1
            &&& variable_text(name, vars, None) == vars[i].1
            &&& with_value(Seq::empty(), vars, name) == seq![vars[i].1]
        },
        (forall|j: int| 0 <= j < vars.len() ==> (#[trigger] vars[j]).0 != name) ==> {
            &&& value_from(vars, name, 0) is None
            &&& variable_text(name, vars, None).len() == 0
            &&& with_value(Seq::empty(), vars, name).len() == 0
            &&& variable_text(name, vars, Some(dir)) == (if name.len() >= 14 && name.subrange(
                name.len() - 14,
                name.len() as int,
            ) == "_FOOTPRINT_DIR"@ {
                dir
            } else {
                Seq::empty()
            })
        },
{
    reveal_strlit("_FOOTPRINT_DIR");
    assert("_FOOTPRINT_DIR"@.len() == 14);
    lemma_value(vars, name, 0);
    if 0 <= i < vars.len() && vars[i].0 == name && (forall|j: int|
        0 <= j < i ==> (#[trigger] vars[j]).0 != name) {
        assert(vars[i].0 == name);
    }
    if value_from(vars, name, 0) is Some {
        assert(with_value(Seq::empty(), vars, name) =~= seq![value_from(vars, name, 0).unwrap()]);
    }
}

proof fn lemma_value(vars: Seq<(Seq<char>, Seq<char>)>, name: Seq<char>, k: int)
    requires
        0 <= k,
    ensures
        match value_from(vars, name, k) {
            Some(v) => exists|i: int|
                k <= i < vars.len() && (#[trigger] vars[i]).0 == name && vars[i].1 == v && forall|
                    j: int,
                |
                    k <= j < i ==> (#[trigger] vars[j]).0 != name,
            None => forall|j: int| k <= j < vars.len() ==> (#[trigger] vars[j]).0 != name,
        },
    decreases vars.len() - k,
{
    if k < vars.len() {
        if vars[k].0 == name {
            assert(vars[k].1 == vars[k].1);
        } else {
            lemma_value(vars, name, k + 1);
            if let Some(v) = value_from(vars, name, k + 1) {
                let i = choose|i: int|
                    k + 1 <= i < vars.len() && (#[trigger] vars[i]).0 == name && vars[i].1 == v
                        && forall|j: int| k + 1 <= j < i ==> (#[trigger] vars[j]).0 != name;
                assert(vars[i].0 == name && vars[i].1 == v);
            }
        }
    }
}

/// References `${NAME}` are replaced from left to right; without one, or where
/// one is never closed, the text stays as it is.
pub proof fn law_variables_are_expanded(
    h: Seq<u8>,
    vars: Seq<(Seq<char>, Seq<char>)>,
    dir: Option<Seq<char>>,
    s: int,
    e: int,
)
    ensures
        (forall|j: int| !#[trigger] stands(h, bytes_of("${"@), j)) ==> expanded(h, vars, dir) == h,
        0 <= s && stands(h, bytes_of("${"@), s) && (forall|j: int|
            0 <= j < s ==> !#[trigger] stands(h, bytes_of("${"@), j)) ==> {
            &&& (forall|j: int| s + 2 <= j < h.len() ==> h[j] != 125) ==> expanded(h, vars, dir) == h
            &&& s + 2 <= e < h.len() && h[e] == 125 && (forall|j: int|
                s + 2 <= j < e ==> h[j] != 125) ==> expanded(h, vars, dir) == h.subrange(0, s)
                + bytes_of(variable_text(text_of(h.subrange(s + 2, e)), vars, dir)) + expanded(
                h.subrange(e + 1, h.len() as int),
                vars,
                dir,
            )
        },
{
    let m = bytes_of("${"@);
    let q = bytes_of("}"@);
    reveal_strlit("${");
    reveal_strlit("}");
    is_ascii_chars_encode_utf8("${"@);
    is_ascii_chars_encode_utf8("}"@);
    assert(q =~= seq![125u8]);
    assert(m.len() == 2);
    law_search_finds_the_first(h, m, 0);
    if let Some(i) = find_at(h, m, 0) {
        assert(stands(h, m, i));
    }
    if 0 <= s {
        lemma_find(h, q, s + 2);
        if let Some(i) = find_at(h, q, s + 2) {
            assert(h.subrange(i, i + 1)[0] == h[i]);
        }
        if s + 2 <= e < h.len() && h[e] == 125 && (forall|j: int| s + 2 <= j < e ==> h[j] != 125) {
            assert(h.subrange(e, e + 1) =~= q);
            assert(occurs_at(h, q, e));
            assert(find_at(h, q, s + 2) == Some(e));
        }
    }
}

/// The place of a library is what stands in quotes behind the first `uri` that
/// follows its name in the table.
pub proof fn law_the_table_gives_the_place_of_a_library(
    h: Seq<u8>,
    nick: Seq<char>,
    p: int,
    u: int,
    e: int,
)
    ensures
        (forall|j: int| !#[trigger] stands(h, bytes_of("(name \""@ + nick + "\")"@), j)) ==> table_uri(
            h,
            nick,
        ) is None,
        0 <= p && stands(h, bytes_of("(name \""@ + nick + "\")"@), p) && (forall|j: int|
            0 <= j < p ==> !#[trigger] stands(h, bytes_of("(name \""@ + nick + "\")"@), j)) ==> {
            &&& (forall|j: int| p <= j ==> !#[trigger] stands(h, bytes_of("(uri \""@), j))
                ==> table_uri(h, nick) is None
            &&& p <= u && stands(h, bytes_of("(uri \""@), u) && (forall|j: int|
                p <= j < u ==> !#[trigger] stands(h, bytes_of("(uri \""@), j)) && u + 6 <= e < h.len()
                && h[e] == 34 && (forall|j: int| u + 6 <= j < e ==> h[j] != 34) ==> table_uri(h, nick)
                == Some(h.subrange(u + 6, e))
        },
{
    let m = bytes_of("(name \""@ + nick + "\")"@);
    let w = bytes_of("(uri \""@);
    let q = bytes_of("\""@);
    reveal_strlit("(uri \"");
    reveal_strlit("\"");
    is_ascii_chars_encode_utf8("(uri \""@);
    is_ascii_chars_encode_utf8("\""@);
    assert(q =~= seq![34u8]);
    assert(w.len() == 6);
    law_search_finds_the_first(h, m, 0);
    if let Some(i) = find_at(h, m, 0) {
        assert(stands(h, m, i));
    }
    if 0 <= p {
        law_search_finds_the_first(h, w, p);
        if let Some(i) = find_at(h, w, p) {
            assert(stands(h, w, i));
        }
        if p <= u && u + 6 <= e < h.len() && h[e] == 34 && (forall|j: int|
            u + 6 <= j < e ==> h[j] != 34) {
            assert(h.subrange(e, e + 1) =~= q);
            assert forall|j: int| u + 6 <= j < e implies !occurs_at(h, q, j) by {
                if occurs_at(h, q, j) {
                    assert(h.subrange(j, j + 1)[0] == h[j]);
                }
            }
            lemma_find_is(h, q, u + 6, e);
        }
    }
}

/// A footprint is looked for where the table says, then in each of the standard
/// directories.
pub proof fn law_a_footprint_is_looked_for_in_order(
    library: Seq<char>,
    name: Seq<char>,
    table: Option<Seq<char>>,
    vars: Seq<(Seq<char>, Seq<char>)>,
    dir: Option<Seq<char>>,
    bases: Seq<Seq<char>>,
    k: int,
)
    requires
        forall|i: int| 0 <= i < library.len() ==> library[i] != ':',
        0 <= k < bases.len(),
    ensures
        ({
            let c = candidates(library + ":"@ + name, table, vars, dir, bases);
            let uri = match table {
                Some(t) => table_uri(bytes_of(t), library),
                None => None,
            };
            &&& c is Some
            &&& uri is None ==> c.unwrap().len() == bases.len() && c.unwrap()[k] == seq![
                bases[k],
                library + ".pretty"@,
                name + ".kicad_mod"@,
            ]
            &&& uri matches Some(u) ==> c.unwrap().len() == bases.len() + 1 && c.unwrap()[0] == seq![
                text_of(expanded(u, vars, dir)),
                name + ".kicad_mod"@,
            ] && c.unwrap()[k + 1] == seq![
                bases[k],
                library + ".pretty"@,
                name + ".kicad_mod"@,
            ]
        }),
{
    law_an_id_is_parted_at_its_first_colon(library, name, Seq::empty());
}

// Derived symbols
/// A parent without a colon is in the library of its child.
pub proof fn law_a_parent_is_in_the_same_library(
    library: Seq<char>,
    name: Seq<char>,
    parent: Seq<char>,
    other: Seq<char>,
)
    requires
        forall|k: int| 0 <= k < library.len() ==> library[k] != ':',
        forall|k: int| 0 <= k < parent.len() ==> parent[k] != ':',
    ensures
        parent_id(library + seq![':'] + name, parent) == library + ":"@ + parent,
        parent_id(library + seq![':'] + name, parent + seq![':'] + other) == parent + seq![':']
            + other,
{
    let s = library + seq![':'] + name;
    lemma_colon(s, 0, library.len() as int);
    assert(s.subrange(0, library.len() as int) =~= library);
    lemma_no_colon(parent, 0);
    let t = parent + seq![':'] + other;
    lemma_colon(t, 0, parent.len() as int);
}

proof fn lemma_colon(s: Seq<char>, i: int, e: int)
    requires
        0 <= i <= e < s.len(),
        s[e] == ':',
        forall|k: int| i <= k < e ==> s[k] != ':',
    ensures
        colon_from(s, i) == e,
    decreases e - i,
{
    if i < e {
        lemma_colon(s, i + 1, e);
    }
}

proof fn lemma_no_colon(s: Seq<char>, i: int)
    requires
        0 <= i <= s.len(),
        forall|k: int| 0 <= k < s.len() ==> s[k] != ':',
    ensures
        colon_from(s, i) == s.len(),
    decreases s.len() - i,
{
    if i < s.len() {
        lemma_no_colon(s, i + 1);
    }
}

/// The name in an id stands behind its first colon, up to the next.
pub proof fn law_the_name_stands_behind_the_colon(library: Seq<char>, name: Seq<char>)
    requires
        forall|k: int| 0 <= k < library.len() ==> library[k] != ':',
        forall|k: int| 0 <= k < name.len() ==> name[k] != ':',
    ensures
        name_part(library + seq![':'] + name) == name,
        name_part(name) == name,
{
    let s = library + seq![':'] + name;
    let i = library.len() as int;
    lemma_colon(s, 0, i);
    let rest = s.subrange(i + 1, s.len() as int);
    assert(rest =~= name);
    lemma_no_colon(name, 0);
    assert(name.subrange(0, name.len() as int) =~= name);
    assert(colon_part(rest, 0) == Some(name));
    assert(colon_part(s, 1) == colon_part(rest, 0));
    assert(colon_part(name, 1) is None);
}

/// The units of a parent are renamed to those of the child; other names stay.
pub proof fn law_units_take_the_name_of_the_child(
    parent: Seq<char>,
    kid: Seq<char>,
    rest: Seq<char>,
    other: Seq<char>,
)
    ensures
        unit_name(parent + "_"@ + rest, parent, kid) == kid + "_"@ + rest,
        !(other.len() > parent.len() && other.subrange(0, parent.len() as int) == parent
            && other[parent.len() as int] == '_') ==> unit_name(other, parent, kid) == other,
{
    reveal_strlit("_");
    let p = parent + "_"@;
    let s = p + rest;
    assert(s.subrange(0, p.len() as int) =~= p);
    assert(s.subrange(p.len() as int, s.len() as int) =~= rest);
    if begins(other, p) {
        assert(other.subrange(0, p.len() as int) == p);
        assert(other.subrange(0, parent.len() as int) =~= parent) by {
            assert forall|k: int| 0 <= k < parent.len() implies other[k] == parent[k] by {
                assert(other.subrange(0, p.len() as int)[k] == p[k]);
            }
        }
        assert(other.subrange(0, p.len() as int)[parent.len() as int] == p[parent.len() as int]);
    }
}

/// Of each node of the parent: a property is left out, the name becomes that of
/// the child, a unit gets its new name, and anything else is taken as it is.
pub proof fn law_a_child_inherits_node_by_node(
    v: Seq<Tree>,
    lib_id: Seq<char>,
    parent: Seq<char>,
    kid: Seq<char>,
    k: int,
)
    requires
        0 <= k < v.len(),
    ensures
        inherited_all(v, lib_id, parent, kid, 0).len() == 0,
        ({
            let before = inherited_all(v, lib_id, parent, kid, k);
            let now = inherited_all(v, lib_id, parent, kid, k + 1);
            &&& headed(v[k], "property"@) ==> now == before
            &&& v[k] is Str ==> now == before.push(Tree::Str(lib_id))
            &&& v[k] is Atom ==> now == before.push(v[k])
            &&& v[k] matches Tree::List(w) ==> (w.len() > 0 && item_is(v[k], 0, "symbol"@) ==> now
                == before.push(Tree::List(unit_renamed(w, parent, kid, 1))))
            &&& v[k] is List && !headed(v[k], "property"@) && !item_is(v[k], 0, "symbol"@) ==> now
                == before.push(v[k])
        }),
{
    reveal_strlit("property");
    reveal_strlit("symbol");
    assert("property"@.len() != "symbol"@.len());
}

/// The name of a unit is its first text in quotes.
pub proof fn law_the_first_quoted_text_names_a_unit(
    v: Seq<Tree>,
    parent: Seq<char>,
    kid: Seq<char>,
    k: int,
    name: Seq<char>,
)
    requires
        1 <= k < v.len(),
        v[k] == Tree::Str(name),
        forall|j: int| 1 <= j < k ==> !((#[trigger] v[j]) is Str),
    ensures
        unit_renamed(v, parent, kid, 1) == v.update(k, Tree::Str(unit_name(name, parent, kid))),
{
    lemma_unit_name(v, parent, kid, 1, k);
}

proof fn lemma_unit_name(v: Seq<Tree>, parent: Seq<char>, kid: Seq<char>, i: int, k: int)
    requires
        1 <= i <= k < v.len(),
        v[k] is Str,
        forall|j: int| 1 <= j < k ==> !((#[trigger] v[j]) is Str),
    ensures
        unit_renamed(v, parent, kid, i) == v.update(
            k,
            Tree::Str(unit_name(v[k]->Str_0, parent, kid)),
        ),
    decreases k - i,
{
    if i < k {
        assert(!(v[i] is Str));
        lemma_unit_name(v, parent, kid, i + 1, k);
    }
}

/// A derived symbol has the inherited nodes in their order, and its own
/// properties before the first unit.
pub proof fn law_own_properties_stand_before_the_units(
    kid: Tree,
    parent: Seq<Tree>,
    lib_id: Seq<char>,
    parent_name: Seq<char>,
    kid_name: Seq<char>,
    at: int,
)
    requires
        ({
            let base = inherited_all(parent, lib_id, parent_name, kid_name, parent.len() as int);
            &&& 0 <= at <= base.len()
            &&& forall|j: int| 0 <= j < at ==> !headed(#[trigger] base[j], "symbol"@)
            &&& at < base.len() ==> headed(base[at], "symbol"@)
        }),
    ensures
        ({
            let base = inherited_all(parent, lib_id, parent_name, kid_name, parent.len() as int);
            merged(kid, parent, lib_id, parent_name, kid_name) == Tree::List(
                base.subrange(0, at) + own_properties(kid) + base.subrange(at, base.len() as int),
            )
        }),
{
    let base = inherited_all(parent, lib_id, parent_name, kid_name, parent.len() as int);
    lemma_tag(base, 0, at);
}

proof fn lemma_tag(v: Seq<Tree>, k: int, at: int)
    requires
        0 <= k <= at <= v.len(),
        forall|j: int| k <= j < at ==> !headed(#[trigger] v[j], "symbol"@),
        at < v.len() ==> headed(v[at], "symbol"@),
    ensures
        tag_index(v, "symbol"@, k) == at,
    decreases at - k,
{
    if k < at {
        assert(!headed(v[k], "symbol"@));
        lemma_tag(v, k + 1, at);
    }
}

/// The properties of a definition are its nodes that begin with `property`.
pub proof fn law_own_properties_are_the_property_nodes(kids: Seq<Tree>, x: Tree)
    requires
        kids.len() > 0,
    ensures
        own_properties(Tree::List(kids.push(x))) == (if headed(x, "property"@) {
            own_properties(Tree::List(kids)).push(x)
        } else {
            own_properties(Tree::List(kids))
        }),
{
    let keep = |c: Tree| tagged(c, "property"@);
    let a = kids.drop_first();
    assert(kids.push(x).drop_first() =~= a.push(x));
    reveal(Seq::filter);
    assert(a.push(x).drop_last() =~= a);
}

/// A symbol without a parent is taken as it is; a derived one is joined with its
/// parent, which is made self-contained first. Where the parent is missing,
/// there is no such symbol.
pub proof fn law_a_derived_symbol_is_joined_with_its_parent(
    dirs: Seq<Seq<FileText>>,
    lib_id: Seq<char>,
)
    requires
        chain_is_finite(dirs, lib_id),
    ensures
        symbol_tree(dirs, lib_id) is None ==> flat_symbol(dirs, lib_id) is None,
        symbol_tree(dirs, lib_id) matches Some(kid) ==> match extends_of(kid) {
            None => flat_symbol(dirs, lib_id) == Some(kid),
            Some(x) => {
                let p = parent_id(lib_id, x);
                match flat_symbol(dirs, p) {
                    None => flat_symbol(dirs, lib_id) is None,
                    Some(t) => t matches Tree::List(v) ==> flat_symbol(dirs, lib_id) == Some(
                        merged(kid, v, lib_id, name_part(p), name_part(lib_id)),
                    ),
                }
            },
        },
{
    let n = choose|n: nat| #[trigger] chain_ends(dirs, lib_id, n);
    lemma_chain_length(dirs, lib_id, n);
    if let Some(p) = parent_of(dirs, lib_id) {
        assert(chain_ends(dirs, p, (n - 1) as nat));
        lemma_chain_length(dirs, p, (n - 1) as nat);
    }
}

/// The parent of a definition is the first item of its first `extends`.
pub proof fn law_a_parent_is_named_by_extends(t: Tree, s: Seq<char>)
    ensures
        extends_of(t) == Some(s) <==> (child(t, "extends"@) matches Some(c) && item_is(c, 1, s)),
{
}

/// A chain of parents ends within a number of steps exactly where there is no
/// parent, or one step is left and that of the parent ends within one step less.
pub proof fn law_a_chain_of_parents_ends(dirs: Seq<Seq<FileText>>, lib_id: Seq<char>, n: nat)
    ensures
        parent_of(dirs, lib_id) is None ==> chain_ends(dirs, lib_id, n),
        parent_of(dirs, lib_id) matches Some(p) ==> (chain_ends(dirs, lib_id, n + 1) <==> chain_ends(
            dirs,
            p,
            n,
        )) && !chain_ends(dirs, lib_id, 0),
        parent_of(dirs, lib_id) == (match symbol_tree(dirs, lib_id) {
            Some(t) => match extends_of(t) {
                Some(x) => Some(parent_id(lib_id, x)),
                None => None,
            },
            None => None,
        }),
{
}

/// The first list that begins with a word is found by its number; where there is
/// none, that is the number of lists.
pub proof fn law_the_first_list_has_its_number(v: Seq<Tree>, tag: Seq<char>)
    ensures
        ({
            let k = tag_index(v, tag, 0);
            &&& 0 <= k <= v.len()
            &&& k < v.len() ==> headed(v[k], tag)
            &&& forall|j: int| 0 <= j < k ==> !headed(#[trigger] v[j], tag)
        }),
{
    lemma_tag_from(v, tag, 0);
}

proof fn lemma_tag_from(v: Seq<Tree>, tag: Seq<char>, k: int)
    requires
        0 <= k <= v.len(),
    ensures
        ({
            let t = tag_index(v, tag, k);
            &&& k <= t <= v.len()
            &&& t < v.len() ==> headed(v[t], tag)
            &&& forall|j: int| k <= j < t ==> !headed(#[trigger] v[j], tag)
        }),
    decreases v.len() - k,
{
    if k < v.len() && !tagged(v[k], tag) {
        lemma_tag_from(v, tag, k + 1);
    }
}

/// The definition of a symbol begins where its name first stands and ends with
/// the parenthesis that closes it.
pub proof fn law_a_definition_is_cut_out_by_parentheses(h: Seq<u8>, name: Seq<char>, s: int)
    ensures
        (forall|j: int| !#[trigger] stands(h, bytes_of("(symbol \""@ + name + "\""@), j))
            ==> symbol_block(h, name) is None,
        0 <= s && stands(h, bytes_of("(symbol \""@ + name + "\""@), s) && (forall|j: int|
            0 <= j < s ==> !#[trigger] stands(h, bytes_of("(symbol \""@ + name + "\""@), j))
            ==> symbol_block(h, name) == (match paren_end(h, s, 0) {
            None => None::<Seq<u8>>,
            Some(e) => Some(h.subrange(s, e + 1)),
        }),
{
    let m = bytes_of("(symbol \""@ + name + "\""@);
    law_search_finds_the_first(h, m, 0);
    if let Some(i) = find_at(h, m, 0) {
        assert(stands(h, m, i));
    }
}

/// A definition of one item has no properties; a unit without a quoted text keeps
/// its items; an id without a colon is its own library.
pub proof fn law_what_is_missing_changes_nothing(
    x: Tree,
    v: Seq<Tree>,
    parent: Seq<char>,
    kid: Seq<char>,
    id: Seq<char>,
)
    requires
        forall|j: int| 1 <= j < v.len() ==> !((#[trigger] v[j]) is Str),
        forall|k: int| 0 <= k < parent.len() ==> parent[k] != ':',
        forall|k: int| 0 <= k < id.len() ==> id[k] != ':',
    ensures
        own_properties(Tree::List(seq![x])).len() == 0,
        own_properties(Tree::List(Seq::empty())).len() == 0,
        unit_renamed(v, parent, kid, 1) == v,
        parent_id(id, parent) == id + ":"@ + parent,
{
    reveal(Seq::filter);
    assert(seq![x].drop_first() =~= Seq::<Tree>::empty());
    lemma_no_unit_name(v, parent, kid, 1);
    lemma_no_colon(parent, 0);
    lemma_no_colon(id, 0);
    assert(id.subrange(0, id.len() as int) =~= id);
}

proof fn lemma_no_unit_name(v: Seq<Tree>, parent: Seq<char>, kid: Seq<char>, k: int)
    requires
        1 <= k,
        forall|j: int| 1 <= j < v.len() ==> !((#[trigger] v[j]) is Str),
    ensures
        unit_renamed(v, parent, kid, k) == v,
    decreases v.len() - k,
{
    if k < v.len() {
        assert(!(v[k] is Str));
        lemma_no_unit_name(v, parent, kid, k + 1);
    }
}

/// What follows a second colon does not belong to the name.
pub proof fn law_the_name_ends_at_the_next_colon(
    library: Seq<char>,
    name: Seq<char>,
    rest: Seq<char>,
)
    requires
        forall|k: int| 0 <= k < library.len() ==> library[k] != ':',
        forall|k: int| 0 <= k < name.len() ==> name[k] != ':',
    ensures
        name_part(library + seq![':'] + (name + seq![':'] + rest)) == name,
{
    let t = name + seq![':'] + rest;
    let s = library + seq![':'] + t;
    let i = library.len() as int;
    lemma_colon(s, 0, i);
    assert(s.subrange(i + 1, s.len() as int) =~= t);
    lemma_colon(t, 0, name.len() as int);
    assert(t.subrange(0, name.len() as int) =~= name);
    assert(colon_part(t, 0) == Some(name));
    assert(colon_part(s, 1) == colon_part(t, 0));
}

} // verus!
