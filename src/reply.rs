use core::cmp::Ordering;
use vstd::prelude::*;
use vstd::string::*;

verus! {

/// What the operator typed at an a/b prompt.
pub enum Reply {
    /// `a`: the first item comes first.
    First,
    /// `b`: the second item comes first.
    Second,
    /// `save <file>`: write the cache to the named file, then ask again.
    Save(String),
    /// Anything else: ask again.
    Unknown,
}

/// `c` has the Unicode property White_Space: U+0009 to U+000D, U+0020,
/// U+0085, U+00A0, U+1680, U+2000 to U+200A, U+2028, U+2029, U+202F, U+205F
/// and U+3000.
pub open spec fn is_white(c: char) -> bool {
    let u = c as u32;
    (0x9 <= u <= 0xd) || u == 0x20 || u == 0x85 || u == 0xa0 || u == 0x1680 || (0x2000 <= u
        <= 0x200a) || u == 0x2028 || u == 0x2029 || u == 0x202f || u == 0x205f || u == 0x3000
}

/// `s` without its leading white space.
pub open spec fn trim_start(s: Seq<char>) -> Seq<char>
    decreases s.len(),
{
    if s.len() > 0 && is_white(s[0]) {
        trim_start(s.drop_first())
    } else {
        s
    }
}

/// `s` without its trailing white space.
pub open spec fn trim_end(s: Seq<char>) -> Seq<char>
    decreases s.len(),
{
    if s.len() > 0 && is_white(s.last()) {
        trim_end(s.drop_last())
    } else {
        s
    }
}

/// The text `s` without its leading and trailing white space.
pub open spec fn trimmed(s: Seq<char>) -> Seq<char> {
    trim_end(trim_start(s))
}

/// Relies on `str::trim`, which drops leading and trailing characters with
/// the White_Space property.
#[verifier::external_body]
fn trim_text(s: &str) -> (r: &str)
    ensures
        r@ == trimmed(s@),
{
    s.trim()
}

/// The word that asks for the cache to be saved.
pub open spec fn save_word() -> Seq<char> {
    seq!['s', 'a', 'v', 'e']
}

/// `r` is the reply that the trimmed text `t` stands for.
pub open spec fn reply_for(r: Reply, t: Seq<char>) -> bool {
    if t == seq!['a'] {
        r is First
    } else if t == seq!['b'] {
        r is Second
    } else if t.len() >= 4 && t.subrange(0, 4) == save_word() {
        r matches Reply::Save(f) && f@ == trimmed(t.subrange(4, t.len() as int))
    } else {
        r is Unknown
    }
}

/// Reads an already trimmed reply `t`.
pub fn parse_reply(t: &str) -> (r: Reply)
    ensures
        reply_for(r, t@),
{
    let n = t.unicode_len();
    if n == 1 && t.get_char(0) == 'a' {
        assert(t@ =~= seq!['a']);
        return Reply::First;
    }
    if n == 1 && t.get_char(0) == 'b' {
        assert(t@ =~= seq!['b']);
        assert(t@ != seq!['a']) by {
            assert(t@[0] != seq!['a'][0]);
        }
        return Reply::Second;
    }
    proof {
        if t@ == seq!['a'] {
            assert(t@.len() == 1 && t@[0] == seq!['a'][0]);
        }
        if t@ == seq!['b'] {
            assert(t@.len() == 1 && t@[0] == seq!['b'][0]);
        }
    }
    if n >= 4 && t.get_char(0) == 's' && t.get_char(1) == 'a' && t.get_char(2) == 'v'
        && t.get_char(3) == 'e' {
        assert(t@.subrange(0, 4) =~= save_word());
        let rest = t.substring_char(4, n);
        let name = trim_text(rest).to_owned();
        return Reply::Save(name);
    }
    proof {
        if n >= 4 && t@.subrange(0, 4) == save_word() {
            assert(t@.subrange(0, 4)[0] == t@[0]);
            assert(t@.subrange(0, 4)[1] == t@[1]);
            assert(t@.subrange(0, 4)[2] == t@[2]);
            assert(t@.subrange(0, 4)[3] == t@[3]);
        }
    }
    Reply::Unknown
}

/// Reads a line typed at an a/b prompt, white space around it ignored.
pub fn read_reply(line: &str) -> (r: Reply)
    ensures
        reply_for(r, trimmed(line@)),
{
    parse_reply(trim_text(line))
}

impl Reply {
    /// The order that the reply gives to the pair `(a, b)`: `Greater` when
    /// `a` comes first, `Less` when `b` does; `None` when it gives none.
    pub fn ordering(&self) -> (o: Option<Ordering>)
        ensures
            o == match self {
                Reply::First => Some(Ordering::Greater),
                Reply::Second => Some(Ordering::Less),
                _ => None::<Ordering>,
            },
    {
        match self {
            Reply::First => Some(Ordering::Greater),
            Reply::Second => Some(Ordering::Less),
            _ => None,
        }
    }
}

} // verus!
