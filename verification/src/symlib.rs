//! Symbol libraries: finding a symbol's definition in the library files.
//!
//! A library directory holds either one file for each symbol
//! (`Library.kicad_symdir/Symbol.kicad_sym`) or one file for a whole library
//! (`Library.kicad_sym`).
use crate::fplib::{id_parts, split_lib_id, Platform};
use crate::parser::{list_from, node_from, parse_sexp, parsed, string_end, SexpError};
use crate::property::{plain, rest_of};
use crate::routing::{find_paren_end, lemma_paren_end, paren_end};
use crate::text::{
    byte_len, bytes_of, cut, find_at, find_from, lemma_ascii_byte, lemma_bytes_concat,
    lemma_bytes_len, lemma_bytes_valid, lemma_cut_ascii, lemma_cut_ends, lemma_find,
    lemma_occurs_cut, lemma_text_of, occurs_at, same, slice, text_of,
};
use crate::tree::{children, SexpNode, Tree};
use crate::words::{head_end, index_from, index_of, skip_space, strings_of};
use vstd::prelude::*;
use vstd::string::*;
use vstd::utf8::*;

verus! {

// Directories
/// Where symbol libraries may be: the directory that the environment names,
/// then those of the platform.
pub open spec fn symbol_places(named: Option<Seq<char>>, platform: Platform) -> Seq<Seq<char>> {
    (match named {
        Some(d) => seq![d],
        None => seq![],
    }) + (match platform {
        Platform::Windows => seq![
            "C:\\KiCad\\10.0\\share\\kicad\\symbols"@,
            "C:\\Program Files\\KiCad\\10.0\\share\\kicad\\symbols"@,
            "C:\\KiCad\\9.0\\share\\kicad\\symbols"@,
            "C:\\Program Files\\KiCad\\9.0\\share\\kicad\\symbols"@,
        ],
        _ => seq!["/usr/share/kicad/symbols"@, "/usr/local/share/kicad/symbols"@],
    })
}

/// Directories where symbol libraries may be, in the order of search.
pub fn symbol_dir_candidates(named: Option<&str>, platform: Platform) -> (r: Vec<String>)
    ensures
        strings_of(r@) == symbol_places(
            match named {
                Some(d) => Some(d@),
                None => None,
            },
            platform,
        ),
{
    let mut dirs: Vec<String> = Vec::new();
    if let Some(d) = named {
        dirs.push(d.to_owned());
    }
    match platform {
        Platform::Windows => {
            dirs.push("C:\\KiCad\\10.0\\share\\kicad\\symbols".to_owned());
            dirs.push("C:\\Program Files\\KiCad\\10.0\\share\\kicad\\symbols".to_owned());
            dirs.push("C:\\KiCad\\9.0\\share\\kicad\\symbols".to_owned());
            dirs.push("C:\\Program Files\\KiCad\\9.0\\share\\kicad\\symbols".to_owned());
        },
        _ => {
            dirs.push("/usr/share/kicad/symbols".to_owned());
            dirs.push("/usr/local/share/kicad/symbols".to_owned());
        },
    }
    assert(strings_of(dirs@) =~= symbol_places(
        match named {
            Some(d) => Some(d@),
            None => None,
        },
        platform,
    ));
    dirs
}

/// Those of the first `k` directories that are there, each once.
pub open spec fn kept(dirs: Seq<Seq<char>>, there: Seq<bool>, k: int) -> Seq<Seq<char>>
    decreases k,
{
    if k <= 0 {
        seq![]
    } else {
        let before = kept(dirs, there, k - 1);
        if there[k - 1] && !before.contains(dirs[k - 1]) {
            before.push(dirs[k - 1])
        } else {
            before
        }
    }
}

proof fn lemma_index(v: Seq<Seq<char>>, s: Seq<char>, k: int)
    requires
        0 <= k,
    ensures
        index_from(v, s, k) is Some <==> exists|i: int| k <= i < v.len() && #[trigger] v[i] == s,
    decreases v.len() - k,
{
    if k < v.len() && v[k] != s {
        lemma_index(v, s, k + 1);
    }
}

/// The directories to search: those that are there, each once. `there` says of
/// each candidate whether it is a directory.
pub fn find_symbol_dirs(candidates: &Vec<String>, there: &Vec<bool>) -> (r: Vec<String>)
    requires
        there@.len() == candidates@.len(),
    ensures
        strings_of(r@) == kept(strings_of(candidates@), there@, candidates@.len() as int),
{
    let ghost all = strings_of(candidates@);
    let mut out: Vec<String> = Vec::new();
    let mut k: usize = 0;
    assert(strings_of(out@) =~= kept(all, there@, 0));
    while k < candidates.len()
        invariant
            all == strings_of(candidates@),
            there@.len() == candidates@.len(),
            k <= candidates@.len(),
            strings_of(out@) == kept(all, there@, k as int),
        decreases candidates@.len() - k,
    {
        let ghost before = out@;
        assert(all[k as int] == candidates@[k as int]@);
        proof {
            lemma_index(strings_of(before), all[k as int], 0);
        }
        if there[k] && index_of(&out, candidates[k].as_str()).is_none() {
            out.push(candidates[k].as_str().to_owned());
            assert(strings_of(out@) =~= strings_of(before).push(all[k as int]));
        }
        k = k + 1;
    }
    out
}

proof fn lemma_kept(dirs: Seq<Seq<char>>, there: Seq<bool>, k: int)
    requires
        0 <= k <= dirs.len(),
        there.len() == dirs.len(),
    ensures
        forall|i: int, j: int|
            0 <= i < j < kept(dirs, there, k).len() ==> #[trigger] kept(dirs, there, k)[i]
                != #[trigger] kept(dirs, there, k)[j],
        forall|i: int|
            0 <= i < k && there[i] ==> kept(dirs, there, k).contains(#[trigger] dirs[i]),
        forall|d: Seq<char>| #[trigger]
            kept(dirs, there, k).contains(d) ==> exists|i: int|
                0 <= i < k && there[i] && #[trigger] dirs[i] == d,
    decreases k,
{
    if k > 0 {
        lemma_kept(dirs, there, k - 1);
        let before = kept(dirs, there, k - 1);
        let now = kept(dirs, there, k);
        let d = dirs[k - 1];
        if there[k - 1] && !before.contains(d) {
            assert(now == before.push(d));
            assert forall|i: int, j: int| 0 <= i < j < now.len() implies #[trigger] now[i]
                != #[trigger] now[j] by {
                assert(now[i] == before[i]);
                if j < before.len() {
                    assert(now[j] == before[j]);
                } else {
                    assert(before.contains(before[i]));
                }
            }
            assert forall|i: int| 0 <= i < k && there[i] implies now.contains(
                #[trigger] dirs[i],
            ) by {
                if i < k - 1 {
                    let m = choose|m: int| 0 <= m < before.len() && before[m] == dirs[i];
                    assert(now[m] == dirs[i]);
                } else {
                    assert(now[now.len() - 1] == d);
                }
            }
            assert forall|e: Seq<char>| #[trigger] now.contains(e) implies exists|i: int|
                0 <= i < k && there[i] && #[trigger] dirs[i] == e by {
                let m = choose|m: int| 0 <= m < now.len() && now[m] == e;
                if m < before.len() {
                    assert(before[m] == e);
                    assert(before.contains(e));
                } else {
                    assert(dirs[k - 1] == e);
                }
            }
        }
    }
}

/// No directory is searched twice, and those searched are the ones that are
/// there.
pub proof fn law_each_directory_is_searched_once(dirs: Seq<Seq<char>>, there: Seq<bool>)
    requires
        there.len() == dirs.len(),
    ensures
        ({
            let r = kept(dirs, there, dirs.len() as int);
            &&& r.no_duplicates()
            &&& forall|d: Seq<char>| #[trigger]
                r.contains(d) <==> exists|i: int|
                    0 <= i < dirs.len() && there[i] && #[trigger] dirs[i] == d
        }),
{
    lemma_kept(dirs, there, dirs.len() as int);
}

// Replacing text
/// The text with the first `p` replaced by `t`.
pub open spec fn replace_first(h: Seq<u8>, p: Seq<u8>, t: Seq<u8>) -> Seq<u8> {
    match find_at(h, p, 0) {
        Some(i) => h.subrange(0, i) + t + rest_of(h, i + p.len()),
        None => h,
    }
}

/// The text with every `p` replaced by `t`, from the front on.
pub open spec fn replace_all(h: Seq<u8>, p: Seq<u8>, t: Seq<u8>) -> Seq<u8>
    decreases h.len(),
{
    match find_at(h, p, 0) {
        Some(i) => if 0 <= i && 0 < p.len() && i + p.len() <= h.len() {
            h.subrange(0, i) + t + replace_all(rest_of(h, i + p.len()), p, t)
        } else {
            h
        },
        None => h,
    }
}

/// The text with the first `pat` replaced by `with`.
pub fn replaced_once(s: &str, pat: &str, with: &str) -> (r: String)
    requires
        bytes_of(pat@).len() > 0,
    ensures
        bytes_of(r@) == replace_first(bytes_of(s@), bytes_of(pat@), bytes_of(with@)),
{
    let ghost h = bytes_of(s@);
    let ghost p = bytes_of(pat@);
    proof {
        lemma_bytes_valid(s@);
        lemma_bytes_valid(pat@);
        lemma_find(h, p, 0);
        lemma_cut_ends(h);
    }
    let n: usize = byte_len(s);
    match find_from(s, pat, 0) {
        Some(i) => {
            proof {
                lemma_occurs_cut(h, p, i as int);
            }
            let left: &str = slice(s, 0, i);
            let right: &str = slice(s, i + byte_len(pat), n);
            proof {
                lemma_bytes_concat(left@, with@);
                lemma_bytes_concat(left@ + with@, right@);
            }
            left.to_owned().concat(with).concat(right)
        },
        None => s.to_owned(),
    }
}

/// The text with every `pat` replaced by `with`.
pub fn replaced_everywhere(s: &str, pat: &str, with: &str) -> (r: String)
    requires
        bytes_of(pat@).len() > 0,
    ensures
        bytes_of(r@) == replace_all(bytes_of(s@), bytes_of(pat@), bytes_of(with@)),
{
    let ghost p = bytes_of(pat@);
    let ghost t = bytes_of(with@);
    let ghost goal = replace_all(bytes_of(s@), p, t);
    let mut out: String = String::new();
    let mut rest: &str = s;
    assert(bytes_of(out@) + goal =~= goal);
    loop
        invariant_except_break
            bytes_of(out@) + replace_all(bytes_of(rest@), p, t) == goal,
        invariant
            p == bytes_of(pat@),
            t == bytes_of(with@),
            p.len() > 0,
        ensures
            bytes_of(out@) + bytes_of(rest@) == goal,
        decreases bytes_of(rest@).len(),
    {
        let ghost h = bytes_of(rest@);
        let ghost before = out@;
        let n: usize = byte_len(rest);
        match find_from(rest, pat, 0) {
            Some(i) => {
                proof {
                    lemma_bytes_valid(rest@);
                    lemma_bytes_valid(pat@);
                    lemma_find(h, p, 0);
                    lemma_occurs_cut(h, p, i as int);
                    lemma_cut_ends(h);
                }
                let left: &str = slice(rest, 0, i);
                out.append(left);
                out.append(with);
                rest = slice(rest, i + byte_len(pat), n);
                proof {
                    lemma_bytes_concat(before, left@);
                    lemma_bytes_concat(before + left@, with@);
                    assert(bytes_of(out@) + replace_all(bytes_of(rest@), p, t) =~= bytes_of(before)
                        + replace_all(h, p, t));
                }
            },
            None => {
                break;
            },
        }
    }
    let ghost before = out@;
    out.append(rest);
    proof {
        lemma_bytes_concat(before, rest@);
    }
    out
}

// Symbol blocks
/// What a symbol's definition begins with.
pub open spec fn symbol_mark(name: Seq<char>) -> Seq<char> {
    "(symbol \""@ + name + "\""@
}

/// The definition of the first symbol `name` in a library file. Parentheses are
/// counted whether or not they stand in quotes.
pub open spec fn symbol_block(h: Seq<u8>, name: Seq<char>) -> Option<Seq<u8>> {
    match find_at(h, bytes_of(symbol_mark(name)), 0) {
        None => None,
        Some(s) => match paren_end(h, s, 0) {
            None => None,
            Some(e) => Some(h.subrange(s, e + 1)),
        },
    }
}

pub proof fn lemma_symbol_mark(name: Seq<char>)
    ensures
        valid_utf8(bytes_of(symbol_mark(name))),
        bytes_of(symbol_mark(name)).len() >= 10,
        bytes_of(symbol_mark(name))[0] == 40,
{
    reveal_strlit("(symbol \"");
    reveal_strlit("\"");
    is_ascii_chars_encode_utf8("(symbol \""@);
    lemma_bytes_valid(symbol_mark(name));
    assert(symbol_mark(name) =~= "(symbol \""@ + (name + "\""@));
    lemma_bytes_concat("(symbol \""@, name + "\""@);
    lemma_bytes_len(name + "\""@);
    assert(bytes_of("(symbol \""@)[0] == "(symbol \""@[0] as u8);
}

/// Extract a `(symbol "NAME" ...)` block from file content by balanced-paren
/// matching.
pub fn extract_symbol_block(content: &str, symbol_name: &str) -> (r: Option<String>)
    ensures
        match r {
            Some(s) => symbol_block(bytes_of(content@), symbol_name@) == Some(bytes_of(s@)),
            None => symbol_block(bytes_of(content@), symbol_name@) is None,
        },
{
    let ghost h = bytes_of(content@);
    let n: usize = byte_len(content);
    let pattern: String = "(symbol \"".to_owned().concat(symbol_name).concat("\"");
    proof {
        lemma_bytes_valid(content@);
        lemma_symbol_mark(symbol_name@);
        lemma_find(h, bytes_of(pattern@), 0);
    }
    let start: usize = match find_from(content, pattern.as_str(), 0) {
        Some(s) => s,
        None => {
            return None;
        },
    };
    proof {
        let p = bytes_of(pattern@);
        lemma_occurs_cut(h, p, start as int);
        assert(h.subrange(start as int, start + p.len())[0] == p[0]);
    }
    match find_paren_end(content, start) {
        Some(e) => Some(slice(content, start, e + 1).to_owned()),
        None => None,
    }
}

/// What a derived symbol begins the name of its parent with.
pub open spec fn extends_mark(parent: Seq<char>) -> Seq<char> {
    "(extends \""@ + parent + "\")"@
}

/// The name of the first parent that a definition gives.
pub open spec fn extends_name(h: Seq<u8>) -> Option<Seq<char>> {
    match find_at(h, bytes_of("(extends \""@), 0) {
        None => None,
        Some(p) => {
            let a = p + bytes_of("(extends \""@).len();
            match find_at(h, bytes_of("\""@), a) {
                None => None,
                Some(e) => Some(text_of(h.subrange(a, e))),
            }
        },
    }
}

/// The definition with the library put before its name and before the name of
/// its parent. Unit sub-symbol names ("Name_0_1") stay unqualified: KiCAD
/// prefixes only the top-level name in a schematic's lib_symbols table.
pub open spec fn qualified(block: Seq<u8>, library: Seq<char>, name: Seq<char>) -> Seq<u8> {
    let renamed = replace_first(
        block,
        bytes_of(symbol_mark(name)),
        bytes_of(symbol_mark(library + ":"@ + name)),
    );
    match extends_name(renamed) {
        None => renamed,
        Some(parent) => replace_all(
            renamed,
            bytes_of(extends_mark(parent)),
            bytes_of(extends_mark(library + ":"@ + parent)),
        ),
    }
}

proof fn lemma_extends(h: Seq<u8>)
    requires
        valid_utf8(h),
        find_at(h, bytes_of("(extends \""@), 0) is Some,
    ensures
        bytes_of("(extends \""@).len() == 10,
        ({
            let p = find_at(h, bytes_of("(extends \""@), 0).unwrap();
            &&& 0 <= p
            &&& p + 10 <= h.len()
            &&& cut(h, p + 10)
            &&& match find_at(h, bytes_of("\""@), p + 10) {
                Some(e) => p + 10 <= e < h.len() && cut(h, e),
                None => true,
            }
        }),
{
    let m = bytes_of("(extends \""@);
    reveal_strlit("(extends \"");
    reveal_strlit("\"");
    is_ascii_chars_encode_utf8("(extends \""@);
    lemma_bytes_valid("(extends \""@);
    assert("\""@ =~= seq!['"']);
    lemma_ascii_byte('"');
    lemma_find(h, m, 0);
    let p = find_at(h, m, 0).unwrap();
    lemma_occurs_cut(h, m, p);
    lemma_find(h, bytes_of("\""@), p + 10);
    match find_at(h, bytes_of("\""@), p + 10) {
        Some(e) => {
            assert(h.subrange(e, e + 1)[0] == 34u8);
            lemma_cut_ascii(h, e);
        },
        None => {},
    }
}

/// The name of the first parent that a definition gives.
fn find_extends(block: &str) -> (r: Option<&str>)
    ensures
        match r {
            Some(s) => extends_name(bytes_of(block@)) == Some(s@),
            None => extends_name(bytes_of(block@)) is None,
        },
{
    let ghost h = bytes_of(block@);
    let n: usize = byte_len(block);
    match find_from(block, "(extends \"", 0) {
        Some(p) => {
            proof {
                lemma_bytes_valid(block@);
                lemma_extends(h);
            }
            let a: usize = p + 10;
            match find_from(block, "\"", a) {
                Some(e) => Some(slice(block, a, e)),
                None => None,
            }
        },
        None => None,
    }
}

/// The definition with the library put before its name and before the name of
/// its parent.
fn qualify(block: &str, library: &str, name: &str) -> (r: String)
    ensures
        bytes_of(r@) == qualified(bytes_of(block@), library@, name@),
{
    let old_name: String = "(symbol \"".to_owned().concat(name).concat("\"");
    let full: String = library.to_owned().concat(":").concat(name);
    let new_name: String = "(symbol \"".to_owned().concat(full.as_str()).concat("\"");
    proof {
        lemma_symbol_mark(name@);
    }
    let renamed: String = replaced_once(block, old_name.as_str(), new_name.as_str());
    match find_extends(renamed.as_str()) {
        Some(parent) => {
            let old_parent: String = "(extends \"".to_owned().concat(parent).concat("\")");
            let full_parent: String = library.to_owned().concat(":").concat(parent);
            let new_parent: String = "(extends \"".to_owned().concat(
                full_parent.as_str(),
            ).concat("\")");
            proof {
                reveal_strlit("(extends \"");
                lemma_bytes_len(old_parent@);
            }
            replaced_everywhere(renamed.as_str(), old_parent.as_str(), new_parent.as_str())
        },
        None => renamed,
    }
}

// Library directories
/// A library file: of one symbol, or of a whole library if no symbol is given.
pub struct SymbolFile {
    pub library: String,
    pub symbol: Option<String>,
    pub content: String,
}

/// A library file as plain text.
pub struct FileText {
    pub library: Seq<char>,
    pub symbol: Option<Seq<char>>,
    pub content: Seq<char>,
}

impl View for SymbolFile {
    type V = FileText;

    open spec fn view(&self) -> FileText {
        FileText {
            library: self.library@,
            symbol: match self.symbol {
                Some(s) => Some(s@),
                None => None,
            },
            content: self.content@,
        }
    }
}

/// A directory with library files.
pub struct SymbolDir {
    pub files: Vec<SymbolFile>,
}

impl View for SymbolDir {
    type V = Seq<FileText>;

    open spec fn view(&self) -> Seq<FileText> {
        self.files@.map_values(|f: SymbolFile| f@)
    }
}

/// Directories as plain text.
pub open spec fn dirs_of(v: Seq<SymbolDir>) -> Seq<Seq<FileText>> {
    v.map_values(|d: SymbolDir| d@)
}

/// The content of the first file, number `k` or later, for this symbol.
pub open spec fn file_from(
    dir: Seq<FileText>,
    library: Seq<char>,
    symbol: Option<Seq<char>>,
    k: int,
) -> Option<Seq<char>>
    decreases dir.len() - k,
{
    if k < 0 || k >= dir.len() {
        None
    } else if dir[k].library == library && dir[k].symbol == symbol {
        Some(dir[k].content)
    } else {
        file_from(dir, library, symbol, k + 1)
    }
}

/// The qualified definition of a symbol in a file that may be missing.
pub open spec fn defined_in(file: Option<Seq<char>>, library: Seq<char>, name: Seq<char>) -> Option<
    Seq<u8>,
> {
    match file {
        None => None,
        Some(c) => match symbol_block(bytes_of(c), name) {
            None => None,
            Some(b) => Some(qualified(b, library, name)),
        },
    }
}

/// The qualified definition of a symbol in a directory: from the file of the
/// symbol, else from the file of the library.
pub open spec fn resolved_in(dir: Seq<FileText>, library: Seq<char>, name: Seq<char>) -> Option<
    Seq<u8>,
> {
    match defined_in(file_from(dir, library, Some(name), 0), library, name) {
        Some(b) => Some(b),
        None => defined_in(file_from(dir, library, None, 0), library, name),
    }
}

/// The qualified definition of a symbol in the first directory, number `k` or
/// later, that has one.
pub open spec fn resolved_from(
    dirs: Seq<Seq<FileText>>,
    library: Seq<char>,
    name: Seq<char>,
    k: int,
) -> Option<Seq<u8>>
    decreases dirs.len() - k,
{
    if k < 0 || k >= dirs.len() {
        None
    } else {
        match resolved_in(dirs[k], library, name) {
            Some(b) => Some(b),
            None => resolved_from(dirs, library, name, k + 1),
        }
    }
}

/// The qualified definition of the symbol `lib_id`.
pub open spec fn resolved(dirs: Seq<Seq<FileText>>, lib_id: Seq<char>) -> Option<Seq<u8>> {
    match id_parts(lib_id) {
        None => None,
        Some(p) => resolved_from(dirs, p.0, p.1, 0),
    }
}

/// The definition of a text that may be missing.
pub open spec fn opt_bytes(r: Option<String>) -> Option<Seq<u8>> {
    match r {
        Some(s) => Some(bytes_of(s@)),
        None => None,
    }
}

fn same_symbol(a: &Option<String>, b: Option<&str>) -> (r: bool)
    ensures
        r == ((match *a {
            Some(s) => Some(s@),
            None => None,
        }) == crate::tree::opt_text(b)),
{
    match a {
        Some(s) => match b {
            Some(t) => same(s.as_str(), t),
            None => false,
        },
        None => b.is_none(),
    }
}

fn find_file<'a>(dir: &'a SymbolDir, library: &str, symbol: Option<&str>) -> (r: Option<&'a String>)
    ensures
        match r {
            Some(s) => file_from(dir@, library@, crate::tree::opt_text(symbol), 0) == Some(s@),
            None => file_from(dir@, library@, crate::tree::opt_text(symbol), 0) is None,
        },
{
    let mut k: usize = 0;
    while k < dir.files.len()
        invariant
            k <= dir.files@.len(),
            file_from(dir@, library@, crate::tree::opt_text(symbol), 0) == file_from(
                dir@,
                library@,
                crate::tree::opt_text(symbol),
                k as int,
            ),
        decreases dir.files@.len() - k,
    {
        assert(dir@[k as int] == dir.files@[k as int]@);
        if same(dir.files[k].library.as_str(), library) && same_symbol(
            &dir.files[k].symbol,
            symbol,
        ) {
            return Some(&dir.files[k].content);
        }
        k = k + 1;
    }
    None
}

fn define(file: Option<&String>, library: &str, name: &str) -> (r: Option<String>)
    ensures
        opt_bytes(r) == defined_in(
            match file {
                Some(f) => Some(f@),
                None => None,
            },
            library@,
            name@,
        ),
{
    match file {
        Some(c) => match extract_symbol_block(c.as_str(), name) {
            Some(b) => Some(qualify(b.as_str(), library, name)),
            None => None,
        },
        None => None,
    }
}

/// Resolve a lib_id (e.g. "Device:R") to the full symbol S-expression string:
/// the `(symbol "R" ...)` block with the name prefixed as `"Device:R"`.
pub fn resolve_lib_symbol(dirs: &Vec<SymbolDir>, lib_id: &str) -> (r: Option<String>)
    ensures
        opt_bytes(r) == resolved(dirs_of(dirs@), lib_id@),
{
    let (library, name): (&str, &str) = match split_lib_id(lib_id) {
        Some(p) => p,
        None => {
            return None;
        },
    };
    let ghost all = dirs_of(dirs@);
    let mut k: usize = 0;
    while k < dirs.len()
        invariant
            k <= dirs@.len(),
            all == dirs_of(dirs@),
            id_parts(lib_id@) == Some((library@, name@)),
            resolved(all, lib_id@) == resolved_from(all, library@, name@, k as int),
        decreases dirs@.len() - k,
    {
        assert(all[k as int] == dirs@[k as int]@);
        let found: Option<String> = define(
            find_file(&dirs[k], library, Some(name)),
            library,
            name,
        );
        if found.is_some() {
            return found;
        }
        let legacy: Option<String> = define(find_file(&dirs[k], library, None), library, name);
        if legacy.is_some() {
            return legacy;
        }
        k = k + 1;
    }
    None
}

/// The parsed definition of the symbol `lib_id`.
pub open spec fn symbol_tree(dirs: Seq<Seq<FileText>>, lib_id: Seq<char>) -> Option<Tree> {
    match resolved(dirs, lib_id) {
        None => None,
        Some(b) => match parsed(text_of(b)) {
            Ok(t) => Some(t),
            Err(_) => None,
        },
    }
}

/// A node that may be missing, as the owner of it.
pub open spec fn own_tree(r: Option<SexpNode>) -> Option<Tree> {
    match r {
        Some(n) => Some(n@),
        None => None,
    }
}

/// Resolve a lib_id to a parsed SexpNode tree.
pub fn resolve_lib_symbol_node(dirs: &Vec<SymbolDir>, lib_id: &str) -> (r: Option<SexpNode>)
    ensures
        own_tree(r) == symbol_tree(dirs_of(dirs@), lib_id@),
{
    match resolve_lib_symbol(dirs, lib_id) {
        Some(raw) => {
            proof {
                lemma_text_of(raw@);
            }
            match parse_sexp(raw.as_str()) {
                Ok(n) => Some(n),
                Err(_) => None,
            }
        },
        None => None,
    }
}

// What a definition looks like
/// What every definition begins with.
pub open spec fn definition_front() -> Seq<u8> {
    bytes_of("(symbol \""@)
}

pub proof fn lemma_front()
    ensures
        definition_front() == seq![40u8, 115u8, 121u8, 109u8, 98u8, 111u8, 108u8, 32u8, 34u8],
        valid_utf8(definition_front()),
{
    reveal_strlit("(symbol \"");
    is_ascii_chars_encode_utf8("(symbol \""@);
    lemma_bytes_valid("(symbol \""@);
    assert(definition_front() =~= seq![
        40u8,
        115u8,
        121u8,
        109u8,
        98u8,
        111u8,
        108u8,
        32u8,
        34u8,
    ]);
}

/// The text begins with `p`.
pub open spec fn fronts(h: Seq<u8>, p: Seq<u8>) -> bool {
    occurs_at(h, p, 0)
}

/// What a text begins with stays if no other text, put in for something that
/// stands behind it, changes it.
proof fn lemma_front_kept(h: Seq<u8>, p: Seq<u8>, i: int, t: Seq<u8>)
    requires
        fronts(h, p),
        p.len() <= i <= h.len(),
    ensures
        fronts(h.subrange(0, i) + t, p),
{
    let r = h.subrange(0, i) + t;
    assert(r.subrange(0, p.len() as int) =~= h.subrange(0, p.len() as int));
}

proof fn lemma_front_longer(a: Seq<u8>, b: Seq<u8>, p: Seq<u8>)
    requires
        fronts(a, p),
    ensures
        fronts(a + b, p),
{
    assert((a + b).subrange(0, p.len() as int) =~= a.subrange(0, p.len() as int));
}

proof fn lemma_valid_join(a: Seq<u8>, b: Seq<u8>)
    requires
        valid_utf8(a),
        valid_utf8(b),
    ensures
        valid_utf8(a + b),
{
    valid_utf8_concat(a, b);
}

/// Replacing keeps a text a text.
proof fn lemma_replace_all_valid(h: Seq<u8>, p: Seq<u8>, t: Seq<u8>)
    requires
        valid_utf8(h),
        valid_utf8(p),
        valid_utf8(t),
        p.len() > 0,
    ensures
        valid_utf8(replace_all(h, p, t)),
    decreases h.len(),
{
    lemma_find(h, p, 0);
    match find_at(h, p, 0) {
        Some(i) => {
            lemma_occurs_cut(h, p, i);
            lemma_cut_ends(h);
            crate::text::lemma_cut_valid(h, 0, i);
            crate::text::lemma_cut_valid(h, i + p.len(), h.len() as int);
            let rest = rest_of(h, i + p.len());
            lemma_replace_all_valid(rest, p, t);
            lemma_valid_join(h.subrange(0, i), t);
            lemma_valid_join(h.subrange(0, i) + t, replace_all(rest, p, t));
        },
        None => {},
    }
}

proof fn lemma_replace_first_valid(h: Seq<u8>, p: Seq<u8>, t: Seq<u8>)
    requires
        valid_utf8(h),
        valid_utf8(p),
        valid_utf8(t),
        p.len() > 0,
    ensures
        valid_utf8(replace_first(h, p, t)),
{
    lemma_find(h, p, 0);
    match find_at(h, p, 0) {
        Some(i) => {
            lemma_occurs_cut(h, p, i);
            lemma_cut_ends(h);
            crate::text::lemma_cut_valid(h, 0, i);
            crate::text::lemma_cut_valid(h, i + p.len(), h.len() as int);
            lemma_valid_join(h.subrange(0, i), t);
            lemma_valid_join(h.subrange(0, i) + t, rest_of(h, i + p.len()));
        },
        None => {},
    }
}

/// The definition in a file is a text and begins as it should.
proof fn lemma_symbol_block(h: Seq<u8>, name: Seq<char>)
    requires
        valid_utf8(h),
        symbol_block(h, name) is Some,
    ensures
        valid_utf8(symbol_block(h, name).unwrap()),
        fronts(symbol_block(h, name).unwrap(), definition_front()),
{
    let m = bytes_of(symbol_mark(name));
    let f = definition_front();
    lemma_symbol_mark(name);
    lemma_front();
    lemma_find(h, m, 0);
    let s = find_at(h, m, 0).unwrap();
    lemma_occurs_cut(h, m, s);
    let e = paren_end(h, s, 0).unwrap();
    lemma_paren_end(h, s, 0);
    lemma_cut_ascii(h, e);
    crate::text::lemma_cut_valid(h, s, e + 1);
    assert(symbol_mark(name) =~= "(symbol \""@ + (name + "\""@));
    lemma_bytes_concat("(symbol \""@, name + "\""@);
    assert forall|k: int| 0 <= k < 9 implies h[s + k] == f[k] by {
        assert(h.subrange(s, s + m.len())[k] == m[k]);
    }
    assert(h[s + 0] == 40);
    assert(h[s + 1] == 115 && h[s + 2] == 121 && h[s + 3] == 109 && h[s + 4] == 98 && h[s + 5]
        == 111 && h[s + 6] == 108 && h[s + 7] == 32 && h[s + 8] == 34);
    crate::routing::lemma_paren_skip(h, s + 1, s + 9, 1);
    lemma_paren_end(h, s + 9, 1);
    assert(h.subrange(s, e + 1).subrange(0, 9) =~= f);
}

/// A name that is marked in a text that begins as a definition stands at its
/// front or behind it.
proof fn lemma_marked_behind(h: Seq<u8>, p: Seq<u8>, i: int)
    requires
        fronts(h, definition_front()),
        p.len() > 0,
        p[0] == 40,
        occurs_at(h, p, i),
    ensures
        i == 0 || 9 <= i,
{
    lemma_front();
    let f = definition_front();
    assert(h.subrange(i, i + p.len())[0] == h[i]);
    if 0 < i < 9 {
        assert(h.subrange(0, 9)[i] == f[i]);
    }
}

/// A definition stays one when the library is put before its names.
proof fn lemma_qualified(block: Seq<u8>, library: Seq<char>, name: Seq<char>)
    requires
        valid_utf8(block),
        fronts(block, definition_front()),
    ensures
        valid_utf8(qualified(block, library, name)),
        fronts(qualified(block, library, name), definition_front()),
{
    let f = definition_front();
    let full = library + ":"@ + name;
    let m = bytes_of(symbol_mark(name));
    let w = bytes_of(symbol_mark(full));
    lemma_front();
    lemma_symbol_mark(name);
    lemma_symbol_mark(full);
    lemma_replace_first_valid(block, m, w);
    let r = replace_first(block, m, w);
    lemma_find(block, m, 0);
    match find_at(block, m, 0) {
        Some(i) => {
            lemma_marked_behind(block, m, i);
            if i == 0 {
                assert(symbol_mark(full) =~= "(symbol \""@ + (full + "\""@));
                lemma_bytes_concat("(symbol \""@, full + "\""@);
                assert(w.subrange(0, 9) =~= f);
                assert(block.subrange(0, 0) + w =~= w);
                lemma_front_longer(w, rest_of(block, i + m.len()), f);
            } else {
                lemma_front_kept(block, f, i, w);
                lemma_front_longer(
                    block.subrange(0, i) + w,
                    rest_of(block, i + m.len()),
                    f,
                );
            }
        },
        None => {},
    }
    assert(fronts(r, f));
    match extends_name(r) {
        None => {},
        Some(parent) => {
            let p = bytes_of(extends_mark(parent));
            let t = bytes_of(extends_mark(library + ":"@ + parent));
            reveal_strlit("(extends \"");
            is_ascii_chars_encode_utf8("(extends \""@);
            lemma_bytes_valid(extends_mark(parent));
            lemma_bytes_valid(extends_mark(library + ":"@ + parent));
            assert(extends_mark(parent) =~= "(extends \""@ + (parent + "\")"@));
            lemma_bytes_concat("(extends \""@, parent + "\")"@);
            assert(p[0] == "(extends \""@[0] as u8);
            assert(p[1] == "(extends \""@[1] as u8);
            lemma_replace_all_valid(r, p, t);
            lemma_find(r, p, 0);
            match find_at(r, p, 0) {
                Some(i) => {
                    lemma_marked_behind(r, p, i);
                    if i == 0 {
                        assert(r.subrange(0, p.len() as int)[1] == r[1]);
                        assert(r.subrange(0, 9)[1] == f[1]);
                    }
                    lemma_front_kept(r, f, i, t);
                    lemma_front_longer(
                        r.subrange(0, i) + t,
                        replace_all(rest_of(r, i + p.len()), p, t),
                        f,
                    );
                },
                None => {},
            }
        },
    }
}

/// A definition that was found is a text and begins as it should.
pub proof fn lemma_resolved(dirs: Seq<Seq<FileText>>, lib_id: Seq<char>)
    requires
        resolved(dirs, lib_id) is Some,
    ensures
        valid_utf8(resolved(dirs, lib_id).unwrap()),
        fronts(resolved(dirs, lib_id).unwrap(), definition_front()),
{
    let p = id_parts(lib_id).unwrap();
    lemma_resolved_from(dirs, p.0, p.1, 0);
}

proof fn lemma_defined_in(file: Option<Seq<char>>, library: Seq<char>, name: Seq<char>)
    requires
        defined_in(file, library, name) is Some,
    ensures
        valid_utf8(defined_in(file, library, name).unwrap()),
        fronts(defined_in(file, library, name).unwrap(), definition_front()),
{
    let h = bytes_of(file.unwrap());
    lemma_bytes_valid(file.unwrap());
    lemma_symbol_block(h, name);
    lemma_qualified(symbol_block(h, name).unwrap(), library, name);
}

proof fn lemma_resolved_from(
    dirs: Seq<Seq<FileText>>,
    library: Seq<char>,
    name: Seq<char>,
    k: int,
)
    requires
        0 <= k,
        resolved_from(dirs, library, name, k) is Some,
    ensures
        valid_utf8(resolved_from(dirs, library, name, k).unwrap()),
        fronts(resolved_from(dirs, library, name, k).unwrap(), definition_front()),
    decreases dirs.len() - k,
{
    let a = file_from(dirs[k], library, Some(name), 0);
    let b = file_from(dirs[k], library, None, 0);
    if defined_in(a, library, name) is Some {
        lemma_defined_in(a, library, name);
    } else if defined_in(b, library, name) is Some {
        lemma_defined_in(b, library, name);
    } else {
        lemma_resolved_from(dirs, library, name, k + 1);
    }
}

/// The text of a definition begins as it should.
pub proof fn lemma_definition_text(b: Seq<u8>)
    requires
        valid_utf8(b),
        fronts(b, definition_front()),
    ensures
        text_of(b).len() >= 9,
        text_of(b).subrange(0, 9) == "(symbol \""@,
{
    let f = definition_front();
    lemma_front();
    reveal_strlit("(symbol \"");
    assert(b.subrange(0, 9)[8] == b[8]);
    lemma_cut_ascii(b, 8);
    lemma_cut_ends(b);
    crate::text::lemma_cut_valid(b, 9, b.len() as int);
    let rest = rest_of(b, 9);
    crate::text::lemma_bytes_of_text(rest);
    let s = "(symbol \""@ + text_of(rest);
    lemma_bytes_concat("(symbol \""@, text_of(rest));
    assert(bytes_of(s) =~= b) by {
        assert(b =~= b.subrange(0, 9) + rest);
    }
    lemma_text_of(s);
    assert(s.subrange(0, 9) =~= "(symbol \""@);
}

/// A definition is a list that begins with the word `symbol` and a string, the
/// name of the symbol.
pub proof fn lemma_definition_shape(s: Seq<char>)
    requires
        s.len() >= 9,
        s.subrange(0, 9) == "(symbol \""@,
        parsed(s) is Ok,
    ensures
        ({
            let t = parsed(s)->Ok_0;
            &&& t is List
            &&& children(t).len() >= 2
            &&& children(t)[0] == Tree::Atom("symbol"@)
            &&& string_end(s, 9) is Some
            &&& children(t)[1] == Tree::Str(plain(s.subrange(9, string_end(s, 9).unwrap())))
        }),
{
    reveal_strlit("(symbol \"");
    reveal_strlit("symbol");
    let w = s.subrange(0, 9);
    assert(s[0] == w[0] && s[1] == w[1] && s[2] == w[2] && s[3] == w[3] && s[4] == w[4] && s[5]
        == w[5] && s[6] == w[6] && s[7] == w[7] && s[8] == w[8]);
    assert(skip_space(s, 0) == 0);
    assert(skip_space(s, 1) == 1);
    assert(head_end(s, 1) == 7) by {
        reveal_with_fuel(head_end, 8);
    }
    assert(s.subrange(1, 7) =~= "symbol"@);
    assert(node_from(s, 1) == Ok::<(Tree, int), SexpError>((Tree::Atom("symbol"@), 7)));
    assert(skip_space(s, 7) == 8) by {
        reveal_with_fuel(skip_space, 2);
    }
    assert(skip_space(s, 8) == 8);
    assert(node_from(s, 0) is Ok);
    assert(list_from(s, 1) is Ok);
    assert(list_from(s, 7) is Ok);
    assert(node_from(s, 8) is Ok);
    let a = list_from(s, 7)->Ok_0;
    assert(list_from(s, 1) == Ok::<(Seq<Tree>, int), SexpError>(
        (seq![Tree::Atom("symbol"@)] + a.0, a.1),
    ));
}

// Names
/// An id without quotes and backslashes.
pub open spec fn plain_id(s: Seq<char>) -> bool {
    forall|i: int| 0 <= i < s.len() ==> #[trigger] s[i] != '"' && s[i] != '\\'
}

/// An id is made of its two parts.
proof fn lemma_id_join(lib_id: Seq<char>)
    requires
        id_parts(lib_id) is Some,
    ensures
        ({
            let p = id_parts(lib_id).unwrap();
            p.0 + ":"@ + p.1 == lib_id
        }),
{
    let h = bytes_of(lib_id);
    let c = bytes_of(":"@);
    reveal_strlit(":");
    assert(":"@ =~= seq![':']);
    lemma_ascii_byte(':');
    lemma_bytes_valid(lib_id);
    lemma_find(h, c, 0);
    let i = find_at(h, c, 0).unwrap();
    assert(h.subrange(i, i + 1)[0] == h[i]);
    lemma_cut_ascii(h, i);
    lemma_cut_ends(h);
    crate::text::lemma_cut_valid(h, 0, i);
    crate::text::lemma_cut_valid(h, i + 1, h.len() as int);
    let a = text_of(h.subrange(0, i));
    let b = text_of(rest_of(h, i + 1));
    crate::text::lemma_bytes_of_text(h.subrange(0, i));
    crate::text::lemma_bytes_of_text(rest_of(h, i + 1));
    lemma_bytes_concat(a, ":"@);
    lemma_bytes_concat(a + ":"@, b);
    assert(bytes_of(a + ":"@ + b) =~= h);
    crate::text::lemma_bytes_injective(a + ":"@ + b, lib_id);
}

/// What marks a plain name has its two quotes and no other, and no backslash.
proof fn lemma_plain_mark(name: Seq<char>)
    requires
        plain_id(name),
    ensures
        ({
            let m = bytes_of(symbol_mark(name));
            &&& m.len() >= 10
            &&& m.subrange(0, 9) == definition_front()
            &&& m[m.len() - 1] == 34
            &&& forall|k: int| 9 <= k < m.len() - 1 ==> m[k] != 34 && m[k] != 92
        }),
{
    reveal_strlit("\"");
    assert("\""@ =~= seq!['"']);
    lemma_ascii_byte('"');
    lemma_front();
    lemma_bytes_concat("(symbol \""@, name);
    lemma_bytes_concat("(symbol \""@ + name, "\""@);
    crate::text::lemma_no_byte(name, '"');
    crate::text::lemma_no_byte(name, '\\');
    let m = bytes_of(symbol_mark(name));
    assert(m.subrange(0, 9) =~= definition_front());
    assert forall|k: int| 9 <= k < m.len() - 1 implies m[k] != 34 && m[k] != 92 by {
        assert(m[k] == bytes_of(name)[k - 9]);
    }
}

/// A definition that was cut off inside its name.
spec fn torn(b: Seq<u8>) -> bool {
    fronts(b, definition_front()) && forall|k: int|
        9 <= k < b.len() ==> b[k] != 34 && b[k] != 92
}

/// A definition in a file begins with the name it was looked for under, unless a
/// parenthesis in the name cut it off.
proof fn lemma_named_block(h: Seq<u8>, name: Seq<char>)
    requires
        valid_utf8(h),
        plain_id(name),
        symbol_block(h, name) is Some,
    ensures
        fronts(symbol_block(h, name).unwrap(), bytes_of(symbol_mark(name))) || torn(
            symbol_block(h, name).unwrap(),
        ),
{
    let m = bytes_of(symbol_mark(name));
    lemma_symbol_mark(name);
    lemma_plain_mark(name);
    lemma_find(h, m, 0);
    let s = find_at(h, m, 0).unwrap();
    let e = paren_end(h, s, 0).unwrap();
    assert forall|k: int| 0 <= k < m.len() implies h[s + k] == m[k] by {
        assert(h.subrange(s, s + m.len())[k] == m[k]);
    }
    lemma_paren_end(h, s, 0);
    lemma_symbol_block(h, name);
    let b = h.subrange(s, e + 1);
    if b.len() >= m.len() {
        assert(b.subrange(0, m.len() as int) =~= m);
    } else {
        assert forall|k: int| 9 <= k < b.len() implies b[k] != 34 && b[k] != 92 by {
            assert(b[k] == h[s + k]);
        }
    }
}

/// What was cut off inside its name is not changed when names are qualified.
proof fn lemma_torn_kept(b: Seq<u8>, library: Seq<char>, name: Seq<char>)
    requires
        torn(b),
        plain_id(name),
    ensures
        qualified(b, library, name) == b,
{
    let m = bytes_of(symbol_mark(name));
    lemma_plain_mark(name);
    lemma_symbol_mark(name);
    lemma_front();
    lemma_find(b, m, 0);
    if let Some(i) = find_at(b, m, 0) {
        assert(b.subrange(i, i + m.len())[m.len() - 1] == b[i + m.len() - 1]);
    }
    let x = bytes_of("(extends \""@);
    reveal_strlit("(extends \"");
    is_ascii_chars_encode_utf8("(extends \""@);
    assert(x[9] == "(extends \""@[9] as u8);
    lemma_find(b, x, 0);
    if let Some(i) = find_at(b, x, 0) {
        assert(b.subrange(i, i + x.len())[9] == b[i + 9]);
    }
}

/// Putting the library before the name of a parent leaves a plain name at the
/// front as it is.
proof fn lemma_front_of_extended(
    r: Seq<u8>,
    full: Seq<char>,
    library: Seq<char>,
    parent: Seq<char>,
)
    requires
        plain_id(full),
        fronts(r, bytes_of(symbol_mark(full))),
    ensures
        fronts(
            replace_all(
                r,
                bytes_of(extends_mark(parent)),
                bytes_of(extends_mark(library + ":"@ + parent)),
            ),
            bytes_of(symbol_mark(full)),
        ),
{
    let w = bytes_of(symbol_mark(full));
    let p = bytes_of(extends_mark(parent));
    let t = bytes_of(extends_mark(library + ":"@ + parent));
    let x = bytes_of("(extends \""@);
    lemma_plain_mark(full);
    lemma_front();
    reveal_strlit("(extends \"");
    is_ascii_chars_encode_utf8("(extends \""@);
    assert(x =~= seq![40u8, 101u8, 120u8, 116u8, 101u8, 110u8, 100u8, 115u8, 32u8, 34u8]);
    assert(extends_mark(parent) =~= "(extends \""@ + (parent + "\")"@));
    lemma_bytes_concat("(extends \""@, parent + "\")"@);
    assert(extends_mark(library + ":"@ + parent) =~= "(extends \""@ + (library + ":"@ + parent
        + "\")"@));
    lemma_bytes_concat("(extends \""@, library + ":"@ + parent + "\")"@);
    assert forall|k: int| 0 <= k < 10 implies p[k] == x[k] && t[k] == x[k] by {}
    lemma_find(r, p, 0);
    if let Some(i) = find_at(r, p, 0) {
        let n = w.len() as int;
        assert forall|k: int| 0 <= k < p.len() implies r[i + k] == p[k] by {
            assert(r.subrange(i, i + p.len())[k] == p[k]);
        }
        assert forall|k: int| 0 <= k < n implies #[trigger] r[k] == w[k] by {
            assert(r.subrange(0, n)[k] == w[k]);
        }
        let front = r.subrange(0, i) + t;
        if i < n {
            // A quote inside the mark of the parent is the last of the name.
            assert(r[i + 9] == 34);
            if i + 9 < n {
                if i + 9 < 9 {
                    assert(w.subrange(0, 9)[i + 9] == definition_front()[i + 9]);
                    assert(i + 9 == 8);
                }
                assert(i + 9 == n - 1);
                assert(front.subrange(0, n) =~= w) by {
                    assert forall|k: int| 0 <= k < n implies #[trigger] front[k] == w[k] by {
                        if k >= i {
                            assert(front[k] == t[k - i]);
                            assert(r[i + (k - i)] == p[k - i]);
                        }
                    }
                }
                assert(fronts(front, w));
            } else {
                assert(r[n - 1] == 34);
                assert(r[i + (n - 1 - i)] == p[n - 1 - i]);
                assert(x[n - 1 - i] != 34);
                assert(false);
            }
        } else {
            lemma_front_kept(r, w, i, t);
        }
        lemma_front_longer(front, replace_all(rest_of(r, i + p.len()), p, t), w);
    }
}

/// Once qualified, a definition begins with its full name.
proof fn lemma_qualified_name(block: Seq<u8>, library: Seq<char>, name: Seq<char>)
    requires
        fronts(block, bytes_of(symbol_mark(name))),
        plain_id(library + ":"@ + name),
    ensures
        fronts(
            qualified(block, library, name),
            bytes_of(symbol_mark(library + ":"@ + name)),
        ),
{
    let full = library + ":"@ + name;
    let m = bytes_of(symbol_mark(name));
    let w = bytes_of(symbol_mark(full));
    lemma_symbol_mark(name);
    lemma_symbol_mark(full);
    crate::text::lemma_find_is(block, m, 0, 0);
    let r = replace_first(block, m, w);
    assert(block.subrange(0, 0) + w =~= w);
    assert(w.subrange(0, w.len() as int) =~= w);
    lemma_front_longer(w, rest_of(block, m.len() as int), w);
    assert(fronts(r, w));
    if let Some(parent) = extends_name(r) {
        lemma_front_of_extended(r, full, library, parent);
    }
}

proof fn lemma_named_in(file: Option<Seq<char>>, library: Seq<char>, name: Seq<char>)
    requires
        plain_id(library + ":"@ + name),
        defined_in(file, library, name) is Some,
    ensures
        fronts(
            defined_in(file, library, name).unwrap(),
            bytes_of(symbol_mark(library + ":"@ + name)),
        ) || torn(defined_in(file, library, name).unwrap()),
{
    let h = bytes_of(file.unwrap());
    let full = library + ":"@ + name;
    assert(plain_id(name)) by {
        reveal_strlit(":");
        assert forall|i: int| 0 <= i < name.len() implies #[trigger] name[i] != '"' && name[i]
            != '\\' by {
            assert(full[library.len() + 1 + i] == name[i]);
        }
    }
    lemma_bytes_valid(file.unwrap());
    lemma_named_block(h, name);
    let b = symbol_block(h, name).unwrap();
    if torn(b) {
        lemma_torn_kept(b, library, name);
    } else {
        lemma_qualified_name(b, library, name);
    }
}

proof fn lemma_named_from(dirs: Seq<Seq<FileText>>, library: Seq<char>, name: Seq<char>, k: int)
    requires
        0 <= k,
        plain_id(library + ":"@ + name),
        resolved_from(dirs, library, name, k) is Some,
    ensures
        fronts(
            resolved_from(dirs, library, name, k).unwrap(),
            bytes_of(symbol_mark(library + ":"@ + name)),
        ) || torn(resolved_from(dirs, library, name, k).unwrap()),
    decreases dirs.len() - k,
{
    let a = file_from(dirs[k], library, Some(name), 0);
    let b = file_from(dirs[k], library, None, 0);
    if defined_in(a, library, name) is Some {
        lemma_named_in(a, library, name);
    } else if defined_in(b, library, name) is Some {
        lemma_named_in(b, library, name);
    } else {
        lemma_named_from(dirs, library, name, k + 1);
    }
}

proof fn lemma_string_skip(s: Seq<char>, i: int, j: int)
    requires
        0 <= i <= j < s.len(),
        forall|k: int| i <= k < j ==> s[k] != '"' && s[k] != '\\',
        s[j] == '"',
    ensures
        string_end(s, i) == Some(j),
    decreases j - i,
{
    if i < j {
        lemma_string_skip(s, i + 1, j);
    }
}

proof fn lemma_plain_text(s: Seq<char>)
    requires
        forall|k: int| 0 <= k < s.len() ==> s[k] != '\\',
    ensures
        plain(s) == s,
    decreases s.len(),
{
    if s.len() > 0 {
        lemma_plain_text(s.drop_first());
        assert(seq![s[0]] + s.drop_first() =~= s);
    }
}

proof fn lemma_string_open(s: Seq<char>, i: int)
    requires
        0 <= i,
        forall|k: int| i <= k < s.len() ==> s[k] != '"' && s[k] != '\\',
    ensures
        string_end(s, i) is None,
    decreases s.len() - i,
{
    if i < s.len() {
        lemma_string_open(s, i + 1);
    }
}

/// A character of ASCII shows among the bytes.
proof fn lemma_char_shows(s: Seq<char>, k: int)
    requires
        0 <= k < s.len(),
        (s[k] as u32) < 128,
    ensures
        exists|j: int| 0 <= j < bytes_of(s).len() && #[trigger] bytes_of(s)[j] == s[k] as u8,
{
    let a = s.subrange(0, k);
    let b = s.subrange(k + 1, s.len() as int);
    assert(s =~= a + seq![s[k]] + b);
    lemma_bytes_concat(a, seq![s[k]]);
    lemma_bytes_concat(a + seq![s[k]], b);
    lemma_ascii_byte(s[k]);
    assert(bytes_of(s)[bytes_of(a).len() as int] == s[k] as u8);
}

/// What was cut off inside its name does not parse.
proof fn lemma_torn_fails(b: Seq<u8>)
    requires
        valid_utf8(b),
        torn(b),
    ensures
        parsed(text_of(b)) is Err,
{
    lemma_front();
    reveal_strlit("(symbol \"");
    assert(b.subrange(0, 9)[8] == b[8]);
    lemma_cut_ascii(b, 8);
    lemma_cut_ends(b);
    crate::text::lemma_cut_valid(b, 9, b.len() as int);
    let rest = rest_of(b, 9);
    let y = text_of(rest);
    crate::text::lemma_bytes_of_text(rest);
    let s = "(symbol \""@ + y;
    lemma_bytes_concat("(symbol \""@, y);
    assert(bytes_of(s) =~= b) by {
        assert(b =~= b.subrange(0, 9) + rest);
    }
    lemma_text_of(s);
    assert(s.subrange(0, 9) =~= "(symbol \""@);
    assert forall|k: int| 9 <= k < s.len() implies s[k] != '"' && s[k] != '\\' by {
        assert(s[k] == y[k - 9]);
        if s[k] == '"' || s[k] == '\\' {
            lemma_char_shows(y, k - 9);
            let j = choose|j: int|
                0 <= j < bytes_of(y).len() && #[trigger] bytes_of(y)[j] == y[k - 9] as u8;
            assert(rest[j] == b[9 + j]);
        }
    }
    lemma_string_open(s, 9);
    if parsed(s) is Ok {
        lemma_definition_shape(s);
    }
}

/// The definition that is found for a plain id has that id as its name.
pub proof fn law_definition_has_its_id(dirs: Seq<Seq<FileText>>, lib_id: Seq<char>)
    requires
        plain_id(lib_id),
        symbol_tree(dirs, lib_id) is Some,
    ensures
        children(symbol_tree(dirs, lib_id).unwrap()).len() >= 2,
        children(symbol_tree(dirs, lib_id).unwrap())[0] == Tree::Atom("symbol"@),
        children(symbol_tree(dirs, lib_id).unwrap())[1] == Tree::Str(lib_id),
{
    let (library, name) = id_parts(lib_id).unwrap();
    let b = resolved(dirs, lib_id).unwrap();
    let w = bytes_of(symbol_mark(lib_id));
    lemma_id_join(lib_id);
    lemma_named_from(dirs, library, name, 0);
    lemma_resolved(dirs, lib_id);
    lemma_symbol_mark(lib_id);
    if torn(b) {
        lemma_torn_fails(b);
    }
    assert(b.subrange(0, w.len() as int) == w);
    // The bytes are those of the mark and of a text behind it.
    lemma_occurs_cut(b, w, 0);
    lemma_cut_ends(b);
    crate::text::lemma_cut_valid(b, w.len() as int, b.len() as int);
    let rest = rest_of(b, w.len() as int);
    crate::text::lemma_bytes_of_text(rest);
    let s = symbol_mark(lib_id) + text_of(rest);
    lemma_bytes_concat(symbol_mark(lib_id), text_of(rest));
    assert(bytes_of(s) =~= b);
    lemma_text_of(s);
    // So the name stands in quotes behind the word.
    reveal_strlit("(symbol \"");
    reveal_strlit("\"");
    let n = lib_id.len() as int;
    assert(s.subrange(0, 9) =~= "(symbol \""@);
    assert(s.subrange(9, 9 + n) =~= lib_id);
    assert(s[9 + n] == '"');
    assert forall|k: int| 9 <= k < 9 + n implies s[k] != '"' && s[k] != '\\' by {
        assert(s[k] == lib_id[k - 9]);
    }
    lemma_string_skip(s, 9, 9 + n);
    lemma_definition_shape(s);
    lemma_plain_text(lib_id);
}

} // verus!
