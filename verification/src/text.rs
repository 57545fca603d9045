//! Character and string helpers: ASCII case folding, splitting on a
//! separator, joining, and whitespace trimming, each with an exact
//! specification.

use vstd::prelude::*;

verus! {

/// The views of a sequence of strings.
pub open spec fn views_of(v: Seq<String>) -> Seq<Seq<char>> {
    Seq::new(v.len(), |i: int| v[i]@)
}

/// ASCII lower-casing of a single character; all other characters are kept.
pub open spec fn lower_char(c: char) -> char {
    match c {
        'A' => 'a',
        'B' => 'b',
        'C' => 'c',
        'D' => 'd',
        'E' => 'e',
        'F' => 'f',
        'G' => 'g',
        'H' => 'h',
        'I' => 'i',
        'J' => 'j',
        'K' => 'k',
        'L' => 'l',
        'M' => 'm',
        'N' => 'n',
        'O' => 'o',
        'P' => 'p',
        'Q' => 'q',
        'R' => 'r',
        'S' => 's',
        'T' => 't',
        'U' => 'u',
        'V' => 'v',
        'W' => 'w',
        'X' => 'x',
        'Y' => 'y',
        'Z' => 'z',
        _ => c,
    }
}

/// ASCII lower-casing of a character sequence.
pub open spec fn lower(s: Seq<char>) -> Seq<char> {
    s.map_values(|c: char| lower_char(c))
}

/// ASCII whitespace.
pub open spec fn is_space(c: char) -> bool {
    c == ' ' || c == '\t' || c == '\n' || c == '\r'
}

/// Splitting a character sequence on a separator. Splitting the empty
/// sequence gives one empty piece, and every separator opens a new piece, so
/// the result always has one piece more than the input has separators.
pub open spec fn split_on(s: Seq<char>, sep: char) -> Seq<Seq<char>>
    decreases s.len(),
{
    if s.len() == 0 {
        seq![Seq::empty()]
    } else if s[0] == sep {
        seq![Seq::<char>::empty()] + split_on(s.drop_first(), sep)
    } else {
        let rest = split_on(s.drop_first(), sep);
        seq![seq![s[0]] + rest[0]] + rest.drop_first()
    }
}

/// Dropping leading whitespace.
pub open spec fn trim_left(s: Seq<char>) -> Seq<char>
    decreases s.len(),
{
    if s.len() > 0 && is_space(s[0]) {
        trim_left(s.drop_first())
    } else {
        s
    }
}

/// Dropping trailing whitespace.
pub open spec fn trim_right(s: Seq<char>) -> Seq<char>
    decreases s.len(),
{
    if s.len() > 0 && is_space(s.last()) {
        trim_right(s.drop_last())
    } else {
        s
    }
}

/// Dropping surrounding whitespace.
pub open spec fn trim(s: Seq<char>) -> Seq<char> {
    trim_right(trim_left(s))
}

pub broadcast proof fn lemma_split_on_len(s: Seq<char>, sep: char)
    ensures
        #[trigger] split_on(s, sep).len() >= 1,
    decreases s.len(),
{
    if s.len() > 0 {
        lemma_split_on_len(s.drop_first(), sep);
    }
}

/// Relies on String::push: appends the character to the end of the string.
#[verifier::external_body]
fn push_char(s: &mut String, c: char)
    ensures
        final(s)@ == old(s)@.push(c),
{
    s.push(c)
}

fn lower_char_exec(c: char) -> (r: char)
    ensures
        r == lower_char(c),
{
    match c {
        'A' => 'a',
        'B' => 'b',
        'C' => 'c',
        'D' => 'd',
        'E' => 'e',
        'F' => 'f',
        'G' => 'g',
        'H' => 'h',
        'I' => 'i',
        'J' => 'j',
        'K' => 'k',
        'L' => 'l',
        'M' => 'm',
        'N' => 'n',
        'O' => 'o',
        'P' => 'p',
        'Q' => 'q',
        'R' => 'r',
        'S' => 's',
        'T' => 't',
        'U' => 'u',
        'V' => 'v',
        'W' => 'w',
        'X' => 'x',
        'Y' => 'y',
        'Z' => 'z',
        _ => c,
    }
}

fn is_space_exec(c: char) -> (r: bool)
    ensures
        r == is_space(c),
{
    c == ' ' || c == '\t' || c == '\n' || c == '\r'
}

/// The ASCII lower-casing of a string.
pub fn to_lower(s: &str) -> (r: String)
    ensures
        r@ == lower(s@),
{
    let n = s.unicode_len();
    let mut r = String::new();
    let mut i: usize = 0;
    while i < n
        invariant
            n == s@.len(),
            i <= n,
            r@ == lower(s@.take(i as int)),
        decreases n - i,
    {
        let c = s.get_char(i);
        push_char(&mut r, lower_char_exec(c));
        i = i + 1;
        proof {
            assert(s@.take(i as int).map_values(|x: char| lower_char(x)) =~= s@.take(
                i - 1,
            ).map_values(|x: char| lower_char(x)).push(lower_char(c)));
        }
    }
    proof {
        assert(s@.take(n as int) =~= s@);
    }
    r
}

/// How an accumulated prefix of pieces, the piece under construction, and the
/// split of the remaining input combine to the split of the whole input.
spec fn split_parts(acc: Seq<Seq<char>>, cur: Seq<char>, rest: Seq<Seq<char>>) -> Seq<Seq<char>> {
    acc + seq![cur + rest[0]] + rest.drop_first()
}

/// Splits a string on the separator. The result has one piece more than the
/// input has separators; no piece contains the separator.
pub fn split_str(s: &str, sep: char) -> (r: Vec<String>)
    ensures
        views_of(r@) == split_on(s@, sep),
{
    let n = s.unicode_len();
    let mut acc: Vec<String> = Vec::new();
    let mut cur = String::new();
    let mut i: usize = 0;
    proof {
        assert(s@.skip(0) =~= s@);
        lemma_split_on_len(s@, sep);
        assert(split_parts(views_of(acc@), cur@, split_on(s@, sep)) =~~= split_on(s@, sep));
    }
    while i < n
        invariant
            n == s@.len(),
            i <= n,
            split_parts(views_of(acc@), cur@, split_on(s@.skip(i as int), sep)) == split_on(
                s@,
                sep,
            ),
        decreases n - i,
    {
        let c = s.get_char(i);
        proof {
            assert(s@.skip(i as int).drop_first() =~= s@.skip(i + 1));
            lemma_split_on_len(s@.skip(i + 1), sep);
        }
        if c == sep {
            let ghost old_acc = acc@;
            let ghost old_cur = cur@;
            acc.push(cur);
            cur = String::new();
            proof {
                let rest = split_on(s@.skip(i + 1), sep);
                assert(views_of(acc@) =~= views_of(old_acc).push(old_cur));
                assert(split_parts(views_of(old_acc), old_cur, seq![Seq::<char>::empty()] + rest)
                    =~~= split_parts(views_of(acc@), cur@, rest));
            }
        } else {
            let ghost old_cur = cur@;
            push_char(&mut cur, c);
            proof {
                let rest = split_on(s@.skip(i + 1), sep);
                assert(split_parts(
                    views_of(acc@),
                    old_cur,
                    seq![seq![c] + rest[0]] + rest.drop_first(),
                ) =~~= split_parts(views_of(acc@), cur@, rest));
            }
        }
        i = i + 1;
    }
    proof {
        assert(s@.skip(n as int) =~= Seq::<char>::empty());
    }
    let ghost old_acc = acc@;
    let ghost old_cur = cur@;
    acc.push(cur);
    proof {
        assert(views_of(acc@) =~= views_of(old_acc).push(old_cur));
        assert(split_parts(views_of(old_acc), old_cur, split_on(Seq::empty(), sep)) =~~= views_of(
            acc@,
        ));
    }
    acc
}

/// A clone of the string, with its view preserved.
pub fn clone_string(s: &String) -> (r: String)
    ensures
        r@ == s@,
{
    s.clone()
}

/// Whether two strings hold the same characters.
pub fn str_eq(a: &str, b: &str) -> (r: bool)
    ensures
        r == (a@ == b@),
{
    String::from_str(a).eq(&String::from_str(b))
}

/// The string without surrounding ASCII whitespace.
pub fn trim_str(s: &str) -> (r: String)
    ensures
        r@ == trim(s@),
{
    let n = s.unicode_len();
    let mut start: usize = 0;
    proof {
        assert(s@.skip(0) =~= s@);
    }
    while start < n && is_space_exec(s.get_char(start))
        invariant
            n == s@.len(),
            start <= n,
            trim_left(s@) == trim_left(s@.skip(start as int)),
        decreases n - start,
    {
        proof {
            assert(s@.skip(start as int).drop_first() =~= s@.skip(start + 1));
        }
        start = start + 1;
    }
    proof {
        if start == n {
            assert(s@.skip(start as int) =~= Seq::<char>::empty());
        } else {
            assert(s@.skip(start as int)[0] == s@[start as int]);
        }
        assert(trim_left(s@) == s@.skip(start as int));
    }
    let ghost t = s@.skip(start as int);
    let mut end: usize = n;
    proof {
        assert(t.take(n - start) =~= t);
    }
    while end > start && is_space_exec(s.get_char(end - 1))
        invariant
            n == s@.len(),
            start <= end <= n,
            t == s@.skip(start as int),
            trim_right(t) == trim_right(t.take(end - start)),
        decreases end,
    {
        proof {
            assert(t.take(end - start).drop_last() =~= t.take(end - 1 - start));
            assert(t.take(end - start).last() == s@[end - 1]);
        }
        end = end - 1;
    }
    proof {
        if end == start {
            assert(t.take(0) =~= Seq::<char>::empty());
        } else {
            assert(t.take(end - start).last() == s@[end - 1]);
        }
        assert(trim_right(t) == t.take(end - start));
    }
    let piece = s.substring_char(start, end);
    proof {
        assert(piece@ =~= t.take(end - start));
    }
    String::from_str(piece)
}

} // verus!
