//! Library ids of footprints and the places where their files may be.
use crate::property::rest_of;
use crate::text::{
    byte_len, bytes_of, find_at, find_from, lemma_ascii_byte, lemma_bytes_concat, lemma_bytes_len,
    lemma_bytes_valid, lemma_cut_ascii, lemma_cut_ends, lemma_find, lemma_occurs_cut, occurs_at,
    same, slice, text_of,
};
use crate::words::strings_of;
use vstd::prelude::*;
use vstd::string::*;
use vstd::utf8::*;

verus! {

// Environment
/// Names with their values, as in an environment.
pub open spec fn pairs_of(v: Seq<(String, String)>) -> Seq<(Seq<char>, Seq<char>)> {
    v.map_values(|p: (String, String)| (p.0@, p.1@))
}

/// The value of the first pair, number `k` or later, with this name.
pub open spec fn value_from(v: Seq<(Seq<char>, Seq<char>)>, name: Seq<char>, k: int) -> Option<
    Seq<char>,
>
    decreases v.len() - k,
{
    if k < 0 || k >= v.len() {
        None
    } else if v[k].0 == name {
        Some(v[k].1)
    } else {
        value_from(v, name, k + 1)
    }
}

/// The value under a name.
fn lookup<'a>(vars: &'a Vec<(String, String)>, name: &str) -> (r: Option<&'a String>)
    ensures
        match r {
            Some(s) => value_from(pairs_of(vars@), name@, 0) == Some(s@),
            None => value_from(pairs_of(vars@), name@, 0) is None,
        },
{
    let mut k: usize = 0;
    while k < vars.len()
        invariant
            k <= vars@.len(),
            value_from(pairs_of(vars@), name@, 0) == value_from(pairs_of(vars@), name@, k as int),
        decreases vars@.len() - k,
    {
        assert(pairs_of(vars@)[k as int] == (vars@[k as int].0@, vars@[k as int].1@));
        if same(vars[k].0.as_str(), name) {
            return Some(&vars[k].1);
        }
        k = k + 1;
    }
    None
}

/// `s` ends with `p`.
pub open spec fn ends_in(s: Seq<char>, p: Seq<char>) -> bool {
    s.len() >= p.len() && s.subrange(s.len() - p.len(), s.len() as int) == p
}

fn has_ending(s: &str, p: &str) -> (r: bool)
    ensures
        r == ends_in(s@, p@),
{
    let n: usize = s.unicode_len();
    let m: usize = p.unicode_len();
    n >= m && same(s.substring_char(n - m, n), p)
}

/// What `${name}` stands for: the variable's value, for a footprint directory
/// that is not set the standard one, and nothing for any other.
pub open spec fn variable_text(
    name: Seq<char>,
    vars: Seq<(Seq<char>, Seq<char>)>,
    footprint_dir: Option<Seq<char>>,
) -> Seq<char> {
    match value_from(vars, name, 0) {
        Some(v) => v,
        None => match footprint_dir {
            Some(d) => if ends_in(name, "_FOOTPRINT_DIR"@) {
                d
            } else {
                Seq::empty()
            },
            None => Seq::empty(),
        },
    }
}

/// The text with every `${name}` replaced. What is opened and never closed is
/// no such reference, and stays as it is.
pub open spec fn expanded(
    h: Seq<u8>,
    vars: Seq<(Seq<char>, Seq<char>)>,
    footprint_dir: Option<Seq<char>>,
) -> Seq<u8>
    decreases h.len(),
{
    match find_at(h, bytes_of("${"@), 0) {
        None => h,
        Some(s) => match find_at(h, bytes_of("}"@), s + 2) {
            None => h,
            Some(e) => if 0 <= s && s + 2 <= e < h.len() {
                h.subrange(0, s) + bytes_of(
                    variable_text(text_of(h.subrange(s + 2, e)), vars, footprint_dir),
                ) + expanded(rest_of(h, e + 1), vars, footprint_dir)
            } else {
                h
            },
        },
    }
}

proof fn lemma_variable(h: Seq<u8>)
    requires
        valid_utf8(h),
        find_at(h, bytes_of("${"@), 0) is Some,
    ensures
        bytes_of("${"@).len() == 2,
        ({
            let s = find_at(h, bytes_of("${"@), 0).unwrap();
            &&& 0 <= s
            &&& s + 2 <= h.len()
            &&& crate::text::cut(h, s)
            &&& crate::text::cut(h, s + 2)
            &&& match find_at(h, bytes_of("}"@), s + 2) {
                Some(e) => {
                    &&& s + 2 <= e < h.len()
                    &&& crate::text::cut(h, e)
                    &&& crate::text::cut(h, e + 1)
                },
                None => true,
            }
        }),
{
    let p = bytes_of("${"@);
    reveal_strlit("${");
    reveal_strlit("}");
    is_ascii_chars_encode_utf8("${"@);
    lemma_bytes_valid("${"@);
    assert("}"@ =~= seq!['}']);
    lemma_ascii_byte('}');
    lemma_find(h, p, 0);
    let s = find_at(h, p, 0).unwrap();
    lemma_occurs_cut(h, p, s);
    lemma_find(h, bytes_of("}"@), s + 2);
    match find_at(h, bytes_of("}"@), s + 2) {
        Some(e) => {
            assert(h.subrange(e, e + 1)[0] == 125u8);
            lemma_cut_ascii(h, e);
        },
        None => {},
    }
}

/// Expand `${VAR}` references in an fp-lib-table URI from the variables
/// `vars`. `footprint_dir` stands in for the standard KiCAD footprint-dir
/// variables where they are not set.
pub fn expand_kicad_uri(
    uri: &str,
    vars: &Vec<(String, String)>,
    footprint_dir: Option<&str>,
) -> (r: String)
    ensures
        bytes_of(r@) == expanded(
            bytes_of(uri@),
            pairs_of(vars@),
            match footprint_dir {
                Some(d) => Some(d@),
                None => None,
            },
        ),
{
    let ghost pairs = pairs_of(vars@);
    let ghost dir = match footprint_dir {
        Some(d) => Some(d@),
        None => None,
    };
    let ghost goal = expanded(bytes_of(uri@), pairs, dir);
    let mut out: String = String::new();
    let mut rest: &str = uri;
    assert(bytes_of(out@) + goal =~= goal);
    loop
        invariant_except_break
            bytes_of(out@) + expanded(bytes_of(rest@), pairs, dir) == goal,
        invariant
            pairs == pairs_of(vars@),
            dir == (match footprint_dir {
                Some(d) => Some(d@),
                None => None,
            }),
        ensures
            bytes_of(out@) + bytes_of(rest@) == goal,
        decreases bytes_of(rest@).len(),
    {
        let ghost h = bytes_of(rest@);
        let ghost before = out@;
        let n: usize = byte_len(rest);
        match find_from(rest, "${", 0) {
            Some(s) => {
                proof {
                    lemma_bytes_valid(rest@);
                    lemma_variable(h);
                    lemma_cut_ends(h);
                }
                match find_from(rest, "}", s + 2) {
                    Some(e) => {
                        let left: &str = slice(rest, 0, s);
                        out.append(left);
                        proof {
                            lemma_bytes_concat(before, left@);
                        }
                        let name: &str = slice(rest, s + 2, e);
                        let ghost between = out@;
                        match lookup(vars, name) {
                            Some(v) => {
                                out.append(v.as_str());
                            },
                            None => {
                                if let Some(d) = footprint_dir {
                                    if has_ending(name, "_FOOTPRINT_DIR") {
                                        out.append(d);
                                    }
                                }
                            },
                        }
                        rest = slice(rest, e + 1, n);
                        proof {
                            let v = variable_text(name@, pairs, dir);
                            assert(out@ =~= between + v);
                            lemma_bytes_concat(between, v);
                            assert(bytes_of(out@) + expanded(bytes_of(rest@), pairs, dir)
                                =~= bytes_of(before) + expanded(h, pairs, dir));
                        }
                    },
                    None => {
                        break;
                    },
                }
            },
            None => {
                break;
            },
        }
    }
    let ghost before = out@;
    out.append(rest);
    proof {
        lemma_bytes_concat(before, rest@);
    }
    out
}

// The library table
/// The raw URI of the library `nick` in a footprint library table. Entries
/// look like `(lib (name "NICK") ... (uri "..."))`.
pub open spec fn table_uri(h: Seq<u8>, nick: Seq<char>) -> Option<Seq<u8>> {
    match find_at(h, bytes_of("(name \""@ + nick + "\")"@), 0) {
        None => None,
        Some(p) => match find_at(h, bytes_of("(uri \""@), p) {
            None => None,
            Some(u) => {
                let a = u + bytes_of("(uri \""@).len();
                match find_at(h, bytes_of("\""@), a) {
                    None => None,
                    Some(e) => Some(h.subrange(a, e)),
                }
            },
        },
    }
}

/// The raw URI of the library `nick` in a footprint library table.
pub fn find_table_uri<'a>(table: &'a str, nick: &str) -> (r: Option<&'a str>)
    ensures
        match r {
            Some(s) => table_uri(bytes_of(table@), nick@) == Some(bytes_of(s@)),
            None => table_uri(bytes_of(table@), nick@) is None,
        },
{
    let ghost h = bytes_of(table@);
    let pat: String = "(name \"".to_owned().concat(nick).concat("\")");
    let n: usize = byte_len(table);
    proof {
        lemma_bytes_valid(table@);
        reveal_strlit("(uri \"");
        reveal_strlit("\"");
        lemma_bytes_valid("(uri \""@);
        lemma_bytes_len("(uri \""@);
        assert("\""@ =~= seq!['"']);
        lemma_ascii_byte('"');
        lemma_find(h, bytes_of(pat@), 0);
    }
    let p: usize = match find_from(table, pat.as_str(), 0) {
        Some(p) => p,
        None => {
            return None;
        },
    };
    proof {
        lemma_find(h, bytes_of("(uri \""@), p as int);
    }
    let u: usize = match find_from(table, "(uri \"", p) {
        Some(u) => u,
        None => {
            return None;
        },
    };
    proof {
        lemma_occurs_cut(h, bytes_of("(uri \""@), u as int);
    }
    let a: usize = u + byte_len("(uri \"");
    proof {
        lemma_find(h, bytes_of("\""@), a as int);
    }
    match find_from(table, "\"", a) {
        Some(e) => {
            proof {
                assert(h.subrange(e as int, e + 1)[0] == 34u8);
                lemma_cut_ascii(h, e as int);
            }
            Some(slice(table, a, e))
        },
        None => None,
    }
}

// Library ids
/// The two parts of a `Library:Name` id, around its first colon.
pub open spec fn id_parts(lib_id: Seq<char>) -> Option<(Seq<char>, Seq<char>)> {
    let h = bytes_of(lib_id);
    match find_at(h, bytes_of(":"@), 0) {
        None => None,
        Some(i) => Some((text_of(h.subrange(0, i)), text_of(rest_of(h, i + 1)))),
    }
}

/// Split a `Library:Name` id at its first colon.
pub fn split_lib_id(lib_id: &str) -> (r: Option<(&str, &str)>)
    ensures
        match r {
            Some(p) => id_parts(lib_id@) == Some((p.0@, p.1@)),
            None => id_parts(lib_id@) is None,
        },
{
    let ghost h = bytes_of(lib_id@);
    let n: usize = byte_len(lib_id);
    proof {
        lemma_bytes_valid(lib_id@);
        lemma_cut_ends(h);
        reveal_strlit(":");
        assert(":"@ =~= seq![':']);
        lemma_ascii_byte(':');
        lemma_find(h, bytes_of(":"@), 0);
    }
    match find_from(lib_id, ":", 0) {
        Some(i) => {
            proof {
                assert(h.subrange(i as int, i + 1)[0] == 58u8);
                lemma_cut_ascii(h, i as int);
            }
            Some((slice(lib_id, 0, i), slice(lib_id, i + 1, n)))
        },
        None => None,
    }
}

/// A library id takes its parts back together.
pub proof fn law_id_parts_join(lib: Seq<char>, name: Seq<char>)
    requires
        forall|i: int| 0 <= i < lib.len() ==> lib[i] != ':',
    ensures
        id_parts(lib + ":"@ + name) == Some((lib, name)),
{
    let s = lib + ":"@ + name;
    let h = bytes_of(s);
    let a = bytes_of(lib);
    let b = bytes_of(name);
    reveal_strlit(":");
    assert(":"@ =~= seq![':']);
    lemma_ascii_byte(':');
    let c = bytes_of(":"@);
    lemma_bytes_concat(lib, ":"@);
    lemma_bytes_concat(lib + ":"@, name);
    assert(h =~= a + c + b);
    crate::text::lemma_no_byte(lib, ':');
    assert(h.subrange(a.len() as int, (a.len() + 1) as int) =~= c);
    assert forall|j: int| 0 <= j < a.len() implies !occurs_at(h, c, j) by {
        assert(h[j] == a[j]);
        if occurs_at(h, c, j) {
            assert(h.subrange(j, j + 1)[0] == h[j]);
        }
    }
    crate::text::lemma_find_is(h, c, 0, a.len() as int);
    assert(h.subrange(0, a.len() as int) =~= a);
    assert(rest_of(h, (a.len() + 1) as int) =~= b);
    crate::text::lemma_text_of(lib);
    crate::text::lemma_text_of(name);
}

// Candidates
/// The files that may hold a library footprint, each as the parts of its path:
/// first where the table says, then under each of the standard directories.
pub open spec fn candidates(
    lib_id: Seq<char>,
    table: Option<Seq<char>>,
    vars: Seq<(Seq<char>, Seq<char>)>,
    footprint_dir: Option<Seq<char>>,
    bases: Seq<Seq<char>>,
) -> Option<Seq<Seq<Seq<char>>>> {
    match id_parts(lib_id) {
        None => None,
        Some(p) => {
            let file = p.1 + ".kicad_mod"@;
            let listed: Seq<Seq<Seq<char>>> = match table {
                None => seq![],
                Some(t) => match table_uri(bytes_of(t), p.0) {
                    None => seq![],
                    Some(u) => seq![seq![text_of(expanded(u, vars, footprint_dir)), file]],
                },
            };
            Some(listed + bases.map_values(|b: Seq<char>| seq![b, p.0 + ".pretty"@, file]))
        },
    }
}

/// Paths as texts.
pub open spec fn paths_of(v: Seq<Vec<String>>) -> Seq<Seq<Seq<char>>> {
    v.map_values(|p: Vec<String>| strings_of(p@))
}

/// The `.kicad_mod` files that a `Library:Footprint` id may stand for, in the
/// order in which they are tried: first via the global fp-lib-table (with
/// `${VAR}` expansion), then the platform-standard footprint directories. Each
/// is given as the parts of its path.
pub fn footprint_candidates(
    lib_id: &str,
    table: Option<&str>,
    vars: &Vec<(String, String)>,
    footprint_dir: Option<&str>,
    bases: &Vec<String>,
) -> (r: Option<Vec<Vec<String>>>)
    ensures
        match r {
            Some(v) => Some(paths_of(v@)),
            None => None,
        } == candidates(
            lib_id@,
            match table {
                Some(t) => Some(t@),
                None => None,
            },
            pairs_of(vars@),
            match footprint_dir {
                Some(d) => Some(d@),
                None => None,
            },
            strings_of(bases@),
        ),
{
    let (nick, name): (&str, &str) = match split_lib_id(lib_id) {
        Some(p) => p,
        None => {
            return None;
        },
    };
    let mut v: Vec<Vec<String>> = Vec::new();
    let ghost file = name@ + ".kicad_mod"@;
    let ghost mut listed: Seq<Seq<Seq<char>>> = seq![];
    assert(paths_of(v@) =~= listed);
    if let Some(t) = table {
        if let Some(raw) = find_table_uri(t, nick) {
            let uri: String = expand_kicad_uri(raw, vars, footprint_dir);
            let mut path: Vec<String> = Vec::new();
            path.push(uri);
            path.push(name.to_owned().concat(".kicad_mod"));
            proof {
                crate::text::lemma_text_of(path@[0]@);
                assert(strings_of(path@) =~= seq![path@[0]@, file]);
                listed = seq![strings_of(path@)];
            }
            v.push(path);
            assert(paths_of(v@) =~= listed);
        }
    }
    let ghost more = strings_of(bases@).map_values(
        |b: Seq<char>| seq![b, nick@ + ".pretty"@, file],
    );
    let mut k: usize = 0;
    assert(paths_of(v@) =~= listed + more.take(0));
    while k < bases.len()
        invariant
            k <= bases@.len(),
            file == name@ + ".kicad_mod"@,
            more == strings_of(bases@).map_values(
                |b: Seq<char>| seq![b, nick@ + ".pretty"@, file],
            ),
            paths_of(v@) == listed + more.take(k as int),
        decreases bases@.len() - k,
    {
        let ghost before = v@;
        let mut path: Vec<String> = Vec::new();
        path.push(bases[k].as_str().to_owned());
        path.push(nick.to_owned().concat(".pretty"));
        path.push(name.to_owned().concat(".kicad_mod"));
        assert(strings_of(bases@)[k as int] == bases@[k as int]@);
        assert(strings_of(path@) =~= more[k as int]);
        v.push(path);
        assert(paths_of(v@) =~= paths_of(before).push(more[k as int]));
        assert(more.take(k + 1) =~= more.take(k as int).push(more[k as int]));
        assert(paths_of(v@) =~= listed + more.take(k + 1));
        k = k + 1;
    }
    assert(more.take(more.len() as int) =~= more);
    Some(v)
}

// Standard directories
/// The systems that differ in where libraries are installed.
#[derive(Clone, Copy, Debug, PartialEq, Eq, Structural)]
pub enum Platform {
    MacOs,
    Windows,
    /// Linux and the like.
    Unix,
}

/// Where footprint libraries are installed on a platform.
pub open spec fn installed_footprints(platform: Platform) -> Seq<Seq<char>> {
    match platform {
        Platform::MacOs => seq!["/Applications/KiCad/KiCad.app/Contents/SharedSupport/footprints"@],
        Platform::Windows => seq![
            "C:\\Program Files\\KiCad\\10.0\\share\\kicad\\footprints"@,
            "C:\\Program Files\\KiCad\\9.0\\share\\kicad\\footprints"@,
        ],
        Platform::Unix => seq![
            "/usr/share/kicad/footprints"@,
            "/usr/local/share/kicad/footprints"@,
        ],
    }
}

/// The list, with the value under a name behind it if there is one.
pub open spec fn with_value(
    v: Seq<Seq<char>>,
    vars: Seq<(Seq<char>, Seq<char>)>,
    name: Seq<char>,
) -> Seq<Seq<char>> {
    match value_from(vars, name, 0) {
        Some(d) => v.push(d),
        None => v,
    }
}

/// Directories holding the bundled `*.pretty` libraries: those that the
/// environment names, then those of the platform.
pub fn standard_footprint_dirs(vars: &Vec<(String, String)>, platform: Platform) -> (r: Vec<String>)
    ensures
        strings_of(r@) == with_value(
            with_value(seq![], pairs_of(vars@), "KICAD10_FOOTPRINT_DIR"@),
            pairs_of(vars@),
            "KICAD9_FOOTPRINT_DIR"@,
        ) + installed_footprints(platform),
{
    let mut dirs: Vec<String> = Vec::new();
    assert(strings_of(dirs@) =~= Seq::<Seq<char>>::empty());
    if let Some(d) = lookup(vars, "KICAD10_FOOTPRINT_DIR") {
        dirs.push(d.as_str().to_owned());
    }
    let ghost first = with_value(seq![], pairs_of(vars@), "KICAD10_FOOTPRINT_DIR"@);
    assert(strings_of(dirs@) =~= first);
    if let Some(d) = lookup(vars, "KICAD9_FOOTPRINT_DIR") {
        dirs.push(d.as_str().to_owned());
    }
    let ghost named = with_value(first, pairs_of(vars@), "KICAD9_FOOTPRINT_DIR"@);
    assert(strings_of(dirs@) =~= named);
    match platform {
        Platform::MacOs => {
            dirs.push("/Applications/KiCad/KiCad.app/Contents/SharedSupport/footprints".to_owned());
        },
        Platform::Windows => {
            dirs.push("C:\\Program Files\\KiCad\\10.0\\share\\kicad\\footprints".to_owned());
            dirs.push("C:\\Program Files\\KiCad\\9.0\\share\\kicad\\footprints".to_owned());
        },
        Platform::Unix => {
            dirs.push("/usr/share/kicad/footprints".to_owned());
            dirs.push("/usr/local/share/kicad/footprints".to_owned());
        },
    }
    assert(strings_of(dirs@) =~= named + installed_footprints(platform));
    dirs
}

} // verus!
