//! Parsing S-expressions.
use crate::property::{plain, take_plain};
use crate::tree::{forest, lemma_forest_push, SexpNode, Tree};
use crate::words::{chars_of, ends_head, head_end, lemma_skip_space, skip_space, space};
use vstd::prelude::*;
use vstd::string::*;

verus! {

/// Why a text is no S-expression.
#[derive(Debug, Clone, Copy, PartialEq, Eq, Structural)]
pub enum SexpError {
    /// There is nothing to read.
    Empty,
    /// A list is closed that was never opened.
    UnexpectedClose,
    /// A quote is never closed.
    UnterminatedString,
    /// A list is never closed.
    UnterminatedList,
    /// Something stands behind the S-expression.
    TrailingText,
}

impl SexpError {
    /// The message for a person.
    pub open spec fn text(self) -> Seq<char> {
        match self {
            SexpError::Empty => "Empty S-expression"@,
            SexpError::UnexpectedClose => "Unexpected ')' in S-expression"@,
            SexpError::UnterminatedString => "Unterminated string in S-expression"@,
            SexpError::UnterminatedList => "Unterminated list in S-expression"@,
            SexpError::TrailingText => "Trailing text after S-expression"@,
        }
    }

    /// The message for a person.
    pub fn message(self) -> (r: String)
        ensures
            r@ == self.text(),
    {
        match self {
            SexpError::Empty => "Empty S-expression".to_owned(),
            SexpError::UnexpectedClose => "Unexpected ')' in S-expression".to_owned(),
            SexpError::UnterminatedString => "Unterminated string in S-expression".to_owned(),
            SexpError::UnterminatedList => "Unterminated list in S-expression".to_owned(),
            SexpError::TrailingText => "Trailing text after S-expression".to_owned(),
        }
    }
}

// The grammar
/// Where the quoted text that runs from `i` on ends: at the first quote that no
/// backslash stands before.
pub open spec fn string_end(s: Seq<char>, i: int) -> Option<int>
    decreases s.len() - i + 1,
{
    if i < 0 || i >= s.len() {
        None
    } else if s[i] == '\\' {
        string_end(s, i + 2)
    } else if s[i] == '"' {
        Some(i)
    } else {
        string_end(s, i + 1)
    }
}

/// The node that stands at `i`, after white space, and where it ends.
pub open spec fn node_from(s: Seq<char>, i: int) -> Result<(Tree, int), SexpError>
    decreases s.len() - i, 0int,
{
    let a = skip_space(s, i);
    if !(0 <= i <= a < s.len()) {
        Err(SexpError::Empty)
    } else if s[a] == '(' {
        match list_from(s, a + 1) {
            Ok(l) => Ok((Tree::List(l.0), l.1)),
            Err(e) => Err(e),
        }
    } else if s[a] == ')' {
        Err(SexpError::UnexpectedClose)
    } else if s[a] == '"' {
        match string_end(s, a + 1) {
            Some(e) => Ok((Tree::Str(plain(s.subrange(a + 1, e))), e + 1)),
            None => Err(SexpError::UnterminatedString),
        }
    } else {
        Ok((Tree::Atom(s.subrange(a, head_end(s, a))), head_end(s, a)))
    }
}

/// The nodes from `i` on up to the parenthesis that closes their list, and
/// where that ends.
pub open spec fn list_from(s: Seq<char>, i: int) -> Result<(Seq<Tree>, int), SexpError>
    decreases s.len() - i, 1int,
{
    let a = skip_space(s, i);
    if !(0 <= i <= a < s.len()) {
        Err(SexpError::UnterminatedList)
    } else if s[a] == ')' {
        Ok((seq![], a + 1))
    } else {
        match node_from(s, a) {
            Err(e) => Err(e),
            Ok(n) => if a < n.1 <= s.len() {
                match list_from(s, n.1) {
                    Err(e) => Err(e),
                    Ok(l) => Ok((seq![n.0] + l.0, l.1)),
                }
            } else {
                Err(SexpError::UnterminatedList)
            },
        }
    }
}

/// The tree that a text says, with white space around it and nothing else.
pub open spec fn parsed(s: Seq<char>) -> Result<Tree, SexpError> {
    match node_from(s, 0) {
        Err(e) => Err(e),
        Ok(n) => if skip_space(s, n.1) == s.len() {
            Ok(n.0)
        } else {
            Err(SexpError::TrailingText)
        },
    }
}

// Lemmas
proof fn lemma_string_end(s: Seq<char>, i: int)
    requires
        0 <= i,
    ensures
        match string_end(s, i) {
            Some(e) => i <= e < s.len() && s[e] == '"',
            None => true,
        },
    decreases s.len() - i + 1,
{
    if i < s.len() {
        if s[i] == '\\' {
            lemma_string_end(s, i + 2);
        } else if s[i] != '"' {
            lemma_string_end(s, i + 1);
        }
    }
}

proof fn lemma_head_end(s: Seq<char>, i: int)
    requires
        i <= s.len(),
    ensures
        i <= head_end(s, i) <= s.len(),
        i < s.len() && !ends_head(s[i]) ==> i < head_end(s, i),
    decreases s.len() - i,
{
    if i < s.len() && !ends_head(s[i]) {
        lemma_head_end(s, i + 1);
    }
}

/// A node takes up some of the text and no more than there is.
pub proof fn lemma_node_from(s: Seq<char>, i: int)
    requires
        0 <= i <= s.len(),
    ensures
        node_from(s, i) matches Ok(n) ==> skip_space(s, i) < n.1 <= s.len(),
    decreases s.len() - i, 0int,
{
    let a = skip_space(s, i);
    lemma_skip_space(s, i);
    if a < s.len() {
        if s[a] == '(' {
            lemma_list_from(s, a + 1);
        } else if s[a] == '"' {
            lemma_string_end(s, a + 1);
        } else {
            lemma_head_end(s, a);
        }
    }
}

proof fn lemma_list_from(s: Seq<char>, i: int)
    requires
        0 <= i <= s.len(),
    ensures
        list_from(s, i) matches Ok(l) ==> i < l.1 <= s.len(),
    decreases s.len() - i, 1int,
{
    let a = skip_space(s, i);
    lemma_skip_space(s, i);
    if a < s.len() && s[a] != ')' {
        lemma_node_from(s, a);
        lemma_skip_space(s, a);
        match node_from(s, a) {
            Err(_) => {},
            Ok(n) => {
                if a < n.1 <= s.len() {
                    lemma_list_from(s, n.1);
                }
            },
        }
    }
}

proof fn lemma_skip_twice(s: Seq<char>, i: int)
    requires
        i <= s.len(),
    ensures
        skip_space(s, skip_space(s, i)) == skip_space(s, i),
{
    lemma_skip_space(s, i);
}

// Reading
fn skip(cs: &Vec<char>, i: usize) -> (a: usize)
    requires
        i <= cs@.len(),
    ensures
        a == skip_space(cs@, i as int),
        i <= a <= cs@.len(),
{
    let n: usize = cs.len();
    let mut a: usize = i;
    while a < n && space(cs[a])
        invariant
            n == cs@.len(),
            i <= a <= n,
            skip_space(cs@, i as int) == skip_space(cs@, a as int),
        decreases n - a,
    {
        a = a + 1;
    }
    a
}

fn find_string_end(cs: &Vec<char>, i: usize) -> (r: Option<usize>)
    requires
        i <= cs@.len(),
    ensures
        match r {
            Some(e) => string_end(cs@, i as int) == Some(e as int) && i <= e < cs@.len(),
            None => string_end(cs@, i as int) is None,
        },
{
    let n: usize = cs.len();
    let mut e: usize = i;
    while e < n
        invariant
            n == cs@.len(),
            i <= e,
            string_end(cs@, i as int) == string_end(cs@, e as int),
        decreases n - e,
    {
        if cs[e] == '\\' {
            if n - e <= 1 {
                assert(string_end(cs@, e + 2) is None);
                return None;
            }
            e = e + 2;
        } else if cs[e] == '"' {
            return Some(e);
        } else {
            e = e + 1;
        }
    }
    None
}

/// The text from `a` to `e` as it is.
fn take_text(cs: &Vec<char>, a: usize, e: usize) -> (r: String)
    requires
        a <= e <= cs@.len(),
    ensures
        r@ == cs@.subrange(a as int, e as int),
{
    let mut out: String = String::new();
    let mut k: usize = a;
    while k < e
        invariant
            a <= k <= e <= cs@.len(),
            out@ == cs@.subrange(a as int, k as int),
        decreases e - k,
    {
        out.push(cs[k]);
        assert(cs@.subrange(a as int, k + 1) =~= cs@.subrange(a as int, k as int).push(
            cs@[k as int],
        ));
        k = k + 1;
    }
    out
}

/// The node that stands at `i` and where it ends, as plain text.
pub open spec fn node_result(r: Result<(SexpNode, usize), SexpError>) -> Result<
    (Tree, int),
    SexpError,
> {
    match r {
        Ok(n) => Ok((n.0@, n.1 as int)),
        Err(e) => Err(e),
    }
}

fn parse_node(cs: &Vec<char>, i: usize) -> (r: Result<(SexpNode, usize), SexpError>)
    requires
        i <= cs@.len(),
    ensures
        node_result(r) == node_from(cs@, i as int),
    decreases cs@.len() - i, 0int,
{
    let n: usize = cs.len();
    let a: usize = skip(cs, i);
    if a == n {
        return Err(SexpError::Empty);
    }
    let c: char = cs[a];
    if c == '(' {
        match parse_items(cs, a + 1) {
            Ok((v, e)) => Ok((SexpNode::List(v), e)),
            Err(e) => Err(e),
        }
    } else if c == ')' {
        Err(SexpError::UnexpectedClose)
    } else if c == '"' {
        match find_string_end(cs, a + 1) {
            Some(e) => Ok((SexpNode::Str(take_plain(cs, a + 1, e)), e + 1)),
            None => Err(SexpError::UnterminatedString),
        }
    } else {
        let mut e: usize = a;
        while e < n && !(space(cs[e]) || cs[e] == '(' || cs[e] == ')' || cs[e] == '"')
            invariant
                n == cs@.len(),
                a <= e <= n,
                head_end(cs@, a as int) == head_end(cs@, e as int),
            decreases n - e,
        {
            e = e + 1;
        }
        Ok((SexpNode::Atom(take_text(cs, a, e)), e))
    }
}

fn parse_items(cs: &Vec<char>, i: usize) -> (r: Result<(Vec<SexpNode>, usize), SexpError>)
    requires
        i <= cs@.len(),
    ensures
        match r {
            Ok(l) => list_from(cs@, i as int) == Ok::<(Seq<Tree>, int), SexpError>(
                (forest(l.0@), l.1 as int),
            ),
            Err(e) => list_from(cs@, i as int) == Err::<(Seq<Tree>, int), SexpError>(e),
        },
    decreases cs@.len() - i, 1int,
{
    let n: usize = cs.len();
    let ghost s = cs@;
    let mut v: Vec<SexpNode> = Vec::new();
    let mut pos: usize = i;
    proof {
        match list_from(s, i as int) {
            Ok(l) => {
                assert(forest(v@) + l.0 =~= l.0);
            },
            Err(_) => {},
        }
    }
    loop
        invariant
            s == cs@,
            n == s.len(),
            i <= pos <= n,
            list_from(s, i as int) == (match list_from(s, pos as int) {
                Ok(l) => Ok((forest(v@) + l.0, l.1)),
                Err(e) => Err(e),
            }),
        decreases n - pos,
    {
        let a: usize = skip(cs, pos);
        if a == n {
            return Err(SexpError::UnterminatedList);
        }
        if cs[a] == ')' {
            assert(forest(v@) + Seq::<Tree>::empty() =~= forest(v@));
            return Ok((v, a + 1));
        }
        proof {
            lemma_node_from(s, a as int);
            lemma_skip_twice(s, pos as int);
        }
        match parse_node(cs, a) {
            Ok((node, e)) => {
                let ghost before = v@;
                let ghost t = node@;
                proof {
                    lemma_forest_push(before, node);
                }
                v.push(node);
                proof {
                    match list_from(s, e as int) {
                        Ok(l) => {
                            assert(forest(v@) + l.0 =~= forest(before) + (seq![t] + l.0));
                        },
                        Err(_) => {},
                    }
                }
                pos = e;
            },
            Err(e) => {
                return Err(e);
            },
        }
    }
}

/// Parse an S-expression.
pub fn parse_sexp(content: &str) -> (r: Result<SexpNode, SexpError>)
    ensures
        match r {
            Ok(n) => parsed(content@) == Ok::<Tree, SexpError>(n@),
            Err(e) => parsed(content@) == Err::<Tree, SexpError>(e),
        },
{
    let cs: Vec<char> = chars_of(content);
    proof {
        lemma_node_from(cs@, 0);
    }
    match parse_node(&cs, 0) {
        Ok((node, e)) => if skip(&cs, e) == cs.len() {
            Ok(node)
        } else {
            Err(SexpError::TrailingText)
        },
        Err(e) => Err(e),
    }
}

} // verus!
