//! Character-level helpers: decimal digits, white space, trimming and
//! splitting, all stated over `Seq<char>`.
use vstd::prelude::*;
use vstd::std_specs::iter::IteratorSpec;

verus! {

/// The character for a decimal digit.
pub open spec fn digit_char(d: nat) -> char {
    seq!['0', '1', '2', '3', '4', '5', '6', '7', '8', '9'][d as int]
}

pub open spec fn is_digit(c: char) -> bool {
    '0' <= c && c <= '9'
}

pub open spec fn digit_value(c: char) -> nat {
    (c as u32 - '0' as u32) as nat
}

pub open spec fn all_digits(s: Seq<char>) -> bool {
    forall|i: int| 0 <= i < s.len() ==> is_digit(#[trigger] s[i])
}

/// The value of a string of decimal digits, most significant first.
pub open spec fn digits_value(s: Seq<char>) -> nat
    decreases s.len(),
{
    if s.len() == 0 {
        0
    } else {
        digits_value(s.drop_last()) * 10 + digit_value(s.last())
    }
}

/// The shortest decimal spelling of `n`.
pub open spec fn decimal(n: nat) -> Seq<char>
    decreases n,
{
    if n < 10 {
        seq![digit_char(n)]
    } else {
        decimal(n / 10).push(digit_char(n % 10))
    }
}

/// A digit string with no superfluous leading zero.
pub open spec fn canonical_digits(s: Seq<char>) -> bool {
    &&& s.len() > 0
    &&& all_digits(s)
    &&& (s[0] == '0' ==> s.len() == 1)
}

pub proof fn lemma_digit_char(d: nat)
    requires
        d < 10,
    ensures
        is_digit(digit_char(d)),
        digit_value(digit_char(d)) == d,
        digit_char(d) == '0' <==> d == 0,
{
}

pub proof fn lemma_decimal(n: nat)
    ensures
        canonical_digits(decimal(n)),
        digits_value(decimal(n)) == n,
    decreases n,
{
    if n < 10 {
        lemma_digit_char(n);
        assert(decimal(n).drop_last() =~= Seq::<char>::empty());
        assert(digits_value(Seq::<char>::empty()) == 0);
        assert(digits_value(decimal(n)) == n);
    } else {
        lemma_decimal(n / 10);
        lemma_digit_char(n % 10);
        let s = decimal(n);
        assert(s.drop_last() =~= decimal(n / 10));
        assert((n / 10) * 10 + n % 10 == n);
        assert(digits_value(s) == n);
        assert(s[0] == decimal(n / 10)[0]);
        if s[0] == '0' {
            let p = decimal(n / 10);
            assert(p.drop_last() =~= Seq::<char>::empty());
            assert(digits_value(Seq::<char>::empty()) == 0);
            assert(digits_value(p) == 0);
        }
        assert(all_digits(s)) by {
            assert forall|i: int| 0 <= i < s.len() implies is_digit(#[trigger] s[i]) by {
                if i < s.len() - 1 {
                    assert(s[i] == decimal(n / 10)[i]);
                }
            }
        }
    }
}

pub proof fn lemma_canonical_decimal(s: Seq<char>)
    requires
        canonical_digits(s),
    ensures
        decimal(digits_value(s)) == s,
    decreases s.len(),
{
    let v = digits_value(s);
    let last = digit_value(s.last());
    assert(is_digit(s[s.len() - 1]));
    assert(last < 10);
    if s.len() == 1 {
        assert(s.drop_last() =~= Seq::<char>::empty());
        assert(v == last);
        assert(decimal(v) =~= s);
    } else {
        let p = s.drop_last();
        assert(p[0] == s[0]);
        assert(canonical_digits(p)) by {
            assert forall|i: int| 0 <= i < p.len() implies is_digit(#[trigger] p[i]) by {
                assert(p[i] == s[i]);
            }
        }
        lemma_canonical_decimal(p);
        lemma_decimal(digits_value(p));
        assert(digits_value(p) > 0) by {
            if digits_value(p) == 0 {
                assert(decimal(0) == seq![digit_char(0)]);
            }
        }
        assert(v >= 10);
        assert(v / 10 == digits_value(p));
        assert(v % 10 == last);
        assert(digit_char(last) == s.last()) by {
            assert(s.last() == '0' || s.last() == '1' || s.last() == '2' || s.last() == '3'
                || s.last() == '4' || s.last() == '5' || s.last() == '6' || s.last() == '7'
                || s.last() == '8' || s.last() == '9');
        }
        assert(decimal(v) =~= p.push(s.last()));
    }
}

/// The characters of a string, in order.
pub fn chars_of(s: &str) -> (r: Vec<char>)
    ensures
        r@ == s@,
{
    broadcast use vstd::string::group_string_axioms;

    let mut out: Vec<char> = Vec::new();
    let mut it = s.chars();
    let ghost whole = s@;
    loop
        invariant
            whole == s@,
            it.obeys_prophetic_iter_laws(),
            it.remaining() =~= whole.skip(out@.len() as int),
            out@ =~= whole.take(out@.len() as int),
            out@.len() <= whole.len(),
        decreases whole.len() - out@.len(),
    {
        let ghost before = it;
        match it.next() {
            Some(c) => {
                out.push(c);
            },
            None => {
                assert(before.remaining().len() == 0);
                assert(out@ =~= whole);
                return out;
            },
        }
    }
}

/// Relies on `String::from_iter` over `char`s: the string holds exactly
/// those characters, in order.
#[verifier::external_body]
pub fn string_from_chars(cs: &Vec<char>) -> (r: String)
    ensures
        r@ == cs@,
{
    cs.iter().collect()
}

/// Appends the characters of `s` to `out`.
pub fn push_str(out: &mut Vec<char>, s: &str)
    ensures
        final(out)@ == old(out)@ + s@,
{
    let mut cs = chars_of(s);
    out.append(&mut cs);
}

/// Appends the characters of `s[from..to]` to `out`.
pub fn push_range(out: &mut Vec<char>, s: &Vec<char>, from: usize, to: usize)
    requires
        from <= to <= s@.len(),
    ensures
        final(out)@ == old(out)@ + s@.subrange(from as int, to as int),
{
    let mut i = from;
    while i < to
        invariant
            from <= i <= to <= s@.len(),
            out@ == old(out)@ + s@.subrange(from as int, i as int),
        decreases to - i,
    {
        out.push(s[i]);
        i += 1;
        assert(s@.subrange(from as int, i as int) =~= s@.subrange(from as int, i - 1).push(
            s@[i - 1],
        ));
    }
}

pub fn digit_to_char(d: usize) -> (c: char)
    requires
        d < 10,
    ensures
        c == digit_char(d as nat),
{
    match d {
        0 => '0',
        1 => '1',
        2 => '2',
        3 => '3',
        4 => '4',
        5 => '5',
        6 => '6',
        7 => '7',
        8 => '8',
        _ => '9',
    }
}

/// Appends the decimal spelling of `n` to `out`.
pub fn push_decimal(out: &mut Vec<char>, n: usize)
    ensures
        final(out)@ == old(out)@ + decimal(n as nat),
    decreases n,
{
    if n < 10 {
        out.push(digit_to_char(n));
        assert(decimal(n as nat) =~= seq![digit_char(n as nat)]);
    } else {
        push_decimal(out, n / 10);
        out.push(digit_to_char(n % 10));
    }
}

/// Unicode `White_Space`, as `char::is_whitespace` documents it.
pub open spec fn white_space(c: char) -> bool {
    let u = c as u32;
    ||| u == 0x20
    ||| (0x09 <= u && u <= 0x0d)
    ||| u == 0x85
    ||| u == 0xa0
    ||| u == 0x1680
    ||| (0x2000 <= u && u <= 0x200a)
    ||| u == 0x2028
    ||| u == 0x2029
    ||| u == 0x202f
    ||| u == 0x205f
    ||| u == 0x3000
}

pub fn is_white_space(c: char) -> (r: bool)
    ensures
        r == white_space(c),
{
    let u = c as u32;
    u == 0x20 || (0x09 <= u && u <= 0x0d) || u == 0x85 || u == 0xa0 || u == 0x1680 || (0x2000
        <= u && u <= 0x200a) || u == 0x2028 || u == 0x2029 || u == 0x202f || u == 0x205f || u
        == 0x3000
}

/// `s` without its leading white space.
pub open spec fn trim_start(s: Seq<char>) -> Seq<char>
    decreases s.len(),
{
    if s.len() > 0 && white_space(s[0]) {
        trim_start(s.drop_first())
    } else {
        s
    }
}

/// `s` without its trailing white space.
pub open spec fn trim_end(s: Seq<char>) -> Seq<char>
    decreases s.len(),
{
    if s.len() > 0 && white_space(s.last()) {
        trim_end(s.drop_last())
    } else {
        s
    }
}

/// `s` without white space at either end.
pub open spec fn trim(s: Seq<char>) -> Seq<char> {
    trim_end(trim_start(s))
}

/// The characters of `s[from..to]` without white space at either end.
pub fn trimmed_range(s: &Vec<char>, from: usize, to: usize) -> (r: Vec<char>)
    requires
        from <= to <= s@.len(),
    ensures
        r@ == trim(s@.subrange(from as int, to as int)),
{
    let ghost whole = s@.subrange(from as int, to as int);
    let mut a = from;
    while a < to && is_white_space(s[a])
        invariant
            from <= a <= to <= s@.len(),
            trim_start(whole) == trim_start(s@.subrange(a as int, to as int)),
        decreases to - a,
    {
        assert(s@.subrange(a as int, to as int).drop_first() =~= s@.subrange(a + 1, to as int));
        a += 1;
    }
    assert(trim_start(whole) == s@.subrange(a as int, to as int));
    let mut b = to;
    while b > a && is_white_space(s[b - 1])
        invariant
            from <= a <= b <= to <= s@.len(),
            trim(whole) == trim_end(s@.subrange(a as int, b as int)),
        decreases b - a,
    {
        assert(s@.subrange(a as int, b as int).drop_last() =~= s@.subrange(a as int, b - 1));
        b -= 1;
    }
    let mut out: Vec<char> = Vec::new();
    push_range(&mut out, s, a, b);
    assert(out@ =~= s@.subrange(a as int, b as int));
    out
}

/// Whether `d` occurs in `s` at position `i`.
pub open spec fn occurs_at(s: Seq<char>, d: Seq<char>, i: int) -> bool {
    0 <= i && i + d.len() <= s.len() && s.subrange(i, i + d.len()) == d
}

/// The pieces of `s` from `start` on, cut at each occurrence of `d` found
/// scanning left to right from `i` (non-overlapping).
pub open spec fn split_from(s: Seq<char>, d: Seq<char>, start: int, i: int) -> Seq<Seq<char>>
    recommends
        d.len() > 0,
    decreases s.len() - i,
{
    if d.len() == 0 || i + d.len() > s.len() || i < 0 {
        seq![s.subrange(start, s.len() as int)]
    } else if occurs_at(s, d, i) {
        seq![s.subrange(start, i)] + split_from(s, d, i + d.len(), i + d.len())
    } else {
        split_from(s, d, start, i + 1)
    }
}

/// `s` cut at every occurrence of the non-empty delimiter `d`, as
/// `str::split` does.
pub open spec fn split_on(s: Seq<char>, d: Seq<char>) -> Seq<Seq<char>> {
    split_from(s, d, 0, 0)
}

/// The trimmed pieces that are not empty, in order.
pub open spec fn kept_fragments(pieces: Seq<Seq<char>>) -> Seq<Seq<char>>
    decreases pieces.len(),
{
    if pieces.len() == 0 {
        Seq::empty()
    } else {
        let rest = kept_fragments(pieces.drop_last());
        let t = trim(pieces.last());
        if t.len() == 0 {
            rest
        } else {
            rest.push(t)
        }
    }
}

/// The fragments of a response: its pieces between delimiters (the whole
/// text where the delimiter is empty), trimmed, the empty ones left out.
pub open spec fn fragments(s: Seq<char>, d: Seq<char>) -> Seq<Seq<char>> {
    if d.len() == 0 {
        kept_fragments(seq![s])
    } else {
        kept_fragments(split_on(s, d))
    }
}

pub open spec fn views(v: Seq<String>) -> Seq<Seq<char>> {
    v.map_values(|s: String| s@)
}

/// Whether `d` occurs in `s` at position `i`.
pub fn matches_at(s: &Vec<char>, d: &Vec<char>, i: usize) -> (r: bool)
    ensures
        r == occurs_at(s@, d@, i as int),
{
    if d.len() > s.len() || i > s.len() - d.len() {
        return false;
    }
    let mut k: usize = 0;
    while k < d.len()
        invariant
            i + d@.len() <= s@.len() <= usize::MAX,
            k <= d@.len(),
            forall|j: int| 0 <= j < k ==> s@[i + j] == d@[j],
        decreases d@.len() - k,
    {
        if s[i + k] != d[k] {
            assert(s@.subrange(i as int, i + d@.len())[k as int] != d@[k as int]);
            return false;
        }
        k += 1;
    }
    assert(s@.subrange(i as int, i + d@.len()) =~= d@);
    true
}

/// Splits `text` on `delimiter`, trims each piece and keeps the non-empty
/// ones; with an empty delimiter the whole text is the one piece.
pub fn split_fragments(text: &str, delimiter: &str) -> (r: Vec<String>)
    ensures
        views(r@) == fragments(text@, delimiter@),
{
    let s = chars_of(text);
    let d = chars_of(delimiter);
    let mut out: Vec<String> = Vec::new();
    if d.len() == 0 {
        let t = trimmed_range(&s, 0, s.len());
        assert(s@.subrange(0, s@.len() as int) =~= s@);
        assert(kept_fragments(Seq::<Seq<char>>::empty()) == Seq::<Seq<char>>::empty());
        assert(seq![s@].drop_last() =~= Seq::<Seq<char>>::empty());
        if t.len() > 0 {
            out.push(string_from_chars(&t));
            assert(views(out@) =~= seq![t@]);
        } else {
            assert(views(out@) =~= Seq::<Seq<char>>::empty());
        }
        return out;
    }
    let ghost pieces: Seq<Seq<char>> = Seq::empty();
    let mut start: usize = 0;
    let mut i: usize = 0;
    while d.len() <= s.len() && i <= s.len() - d.len()
        invariant
            d@.len() > 0,
            start <= i <= s@.len(),
            pieces + split_from(s@, d@, start as int, i as int) == split_on(s@, d@),
            views(out@) == kept_fragments(pieces),
        decreases s@.len() - i,
    {
        if matches_at(&s, &d, i) {
            let t = trimmed_range(&s, start, i);
            proof {
                let p = s@.subrange(start as int, i as int);
                assert((pieces.push(p)).drop_last() =~= pieces);
                assert(pieces + split_from(s@, d@, start as int, i as int) =~= pieces.push(p)
                    + split_from(s@, d@, i + d@.len(), i + d@.len()));
                pieces = pieces.push(p);
            }
            if t.len() > 0 {
                out.push(string_from_chars(&t));
                assert(views(out@) =~= views(out@.drop_last()).push(t@));
            }
            i = i + d.len();
            start = i;
        } else {
            i = i + 1;
        }
    }
    let t = trimmed_range(&s, start, s.len());
    proof {
        let p = s@.subrange(start as int, s@.len() as int);
        assert((pieces.push(p)).drop_last() =~= pieces);
        assert(pieces + split_from(s@, d@, start as int, i as int) =~= pieces.push(p));
        pieces = pieces.push(p);
    }
    if t.len() > 0 {
        out.push(string_from_chars(&t));
        assert(views(out@) =~= views(out@.drop_last()).push(t@));
    }
    out
}

} // verus!
