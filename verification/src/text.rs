//! Character-level helpers on strings, each stated over `Seq<char>`.
use vstd::prelude::*;

verus! {

/// The ASCII digit character for `d` (`d < 10`).
pub open spec fn digit_char(d: nat) -> char {
    ((d + 48) as u32) as char
}

/// The decimal numeral of `n`, without leading zeros.
pub open spec fn decimal(n: nat) -> Seq<char>
    decreases n,
{
    if n < 10 {
        seq![digit_char(n)]
    } else {
        decimal(n / 10).push(digit_char(n % 10))
    }
}

/// `v` written in exactly `w` decimal digits, zero-padded on the left (its
/// last `w` digits where it has more).
pub open spec fn padded(v: nat, w: nat) -> Seq<char>
    decreases w,
{
    if w == 0 {
        seq![]
    } else {
        padded(v / 10, (w - 1) as nat).push(digit_char(v % 10))
    }
}

/// A lowercase hexadecimal digit.
pub open spec fn is_lower_hex(c: char) -> bool {
    ('0' <= c && c <= '9') || ('a' <= c && c <= 'f')
}

/// The hyphenated lowercase text of an RFC 4122 UUID of version `version`:
/// 36 characters, hyphens at 8, 13, 18 and 23, hexadecimal digits elsewhere,
/// the version digit at 14 and a variant digit (8, 9, a or b) at 19.
pub open spec fn uuid_shaped(s: Seq<char>, version: char) -> bool {
    &&& s.len() == 36
    &&& forall|i: int|
        #![trigger s[i]]
        0 <= i < 36 ==> if i == 8 || i == 13 || i == 18 || i == 23 {
            s[i] == '-'
        } else {
            is_lower_hex(s[i])
        }
    &&& s[14] == version
    &&& (s[19] == '8' || s[19] == '9' || s[19] == 'a' || s[19] == 'b')
}

/// Appends `c` to `s`.
#[verifier::external_body]
pub(crate) fn push_char(s: &mut String, c: char)
    ensures
        final(s)@ == old(s)@.push(c),
{
    s.push(c)
}

/// The characters of `s`, in order.
pub fn chars_of(s: &str) -> (v: Vec<char>)
    ensures
        v@ == s@,
{
    let n = s.unicode_len();
    let mut v: Vec<char> = Vec::new();
    let mut i: usize = 0;
    while i < n
        invariant
            n == s@.len(),
            i <= n,
            v@ == s@.subrange(0, i as int),
        decreases n - i,
    {
        let c = s.get_char(i);
        v.push(c);
        i = i + 1;
    }
    v
}

/// A `String` holding exactly the characters `cs`.
pub fn string_of(cs: &Vec<char>) -> (s: String)
    ensures
        s@ == cs@,
{
    let mut s = String::new();
    let mut i: usize = 0;
    while i < cs.len()
        invariant
            i <= cs.len(),
            s@ == cs@.subrange(0, i as int),
        decreases cs.len() - i,
    {
        push_char(&mut s, cs[i]);
        i = i + 1;
    }
    s
}

/// Appends the decimal numeral of `n` to `s`.
pub fn push_decimal(s: &mut String, n: usize)
    ensures
        final(s)@ == old(s)@ + decimal(n as nat),
    decreases n,
{
    if n >= 10 {
        push_decimal(s, n / 10);
    }
    let d: u8 = (n % 10) as u8;
    let c: char = (d + 48) as char;
    assert(c == digit_char((n % 10) as nat));
    push_char(s, c);
    assert(decimal(n as nat) == if n < 10 { seq![digit_char(n as nat)] } else {
        decimal((n / 10) as nat).push(digit_char((n % 10) as nat))
    });
}


/// Whether `p` is a prefix of `s`.
pub open spec fn starts_with(s: Seq<char>, p: Seq<char>) -> bool {
    p.len() <= s.len() && s.subrange(0, p.len() as int) == p
}

/// `str::split` on a single separator character: the pieces between
/// separators, empty pieces included.
pub open spec fn split_on(s: Seq<char>, sep: char) -> Seq<Seq<char>>
    decreases s.len(),
{
    if s.len() == 0 {
        seq![seq![]]
    } else {
        let prev = split_on(s.drop_last(), sep);
        if s.last() == sep {
            prev.push(seq![])
        } else {
            prev.update(prev.len() - 1, prev.last().push(s.last()))
        }
    }
}

/// The predicate that keeps non-empty pieces.
pub open spec fn nonempty_pred() -> spec_fn(Seq<char>) -> bool {
    |p: Seq<char>| p.len() > 0
}

/// The non-empty pieces of `s` between occurrences of `sep`, in order.
pub open spec fn nonempty_pieces(s: Seq<char>, sep: char) -> Seq<Seq<char>> {
    split_on(s, sep).filter(nonempty_pred())
}

proof fn lemma_split_on_nonempty(s: Seq<char>, sep: char)
    ensures
        split_on(s, sep).len() > 0,
    decreases s.len(),
{
    if s.len() > 0 {
        lemma_split_on_nonempty(s.drop_last(), sep);
    }
}

proof fn lemma_split_on_no_sep(s: Seq<char>, sep: char)
    ensures
        forall|i: int| 0 <= i < split_on(s, sep).len() ==> !(#[trigger] split_on(s, sep)[i]).contains(sep),
    decreases s.len(),
{
    if s.len() > 0 {
        lemma_split_on_no_sep(s.drop_last(), sep);
        lemma_split_on_nonempty(s.drop_last(), sep);
        let prev = split_on(s.drop_last(), sep);
        let cur = split_on(s, sep);
        assert forall|i: int| 0 <= i < cur.len() implies !(#[trigger] cur[i]).contains(sep) by {
            if s.last() == sep {
                if i < prev.len() {
                    assert(cur[i] == prev[i]);
                } else {
                    assert(cur[i] =~= Seq::<char>::empty());
                }
            } else if i < prev.len() - 1 {
                assert(cur[i] == prev[i]);
            } else {
                let last = prev.last();
                assert(!last.contains(sep));
                assert(cur[i] == last.push(s.last()));
                if cur[i].contains(sep) {
                    let k = choose|k: int| 0 <= k < cur[i].len() && cur[i][k] == sep;
                    if k < last.len() {
                        assert(last[k] == sep);
                    }
                }
            }
        }
    }
}

/// Each piece that splitting keeps is non-empty and holds no separator.
pub proof fn law_pieces_nonempty_without_separator(s: Seq<char>, sep: char)
    ensures
        forall|i: int|
            0 <= i < nonempty_pieces(s, sep).len() ==> (#[trigger] nonempty_pieces(s, sep)[i]).len()
                > 0 && !nonempty_pieces(s, sep)[i].contains(sep),
{
    let all = split_on(s, sep);
    let kept = nonempty_pieces(s, sep);
    lemma_split_on_no_sep(s, sep);
    assert forall|i: int| 0 <= i < kept.len() implies (#[trigger] kept[i]).len() > 0
        && !kept[i].contains(sep) by {
        all.lemma_filter_pred(nonempty_pred(), i);
        assert(kept.contains(kept[i]));
        all.lemma_filter_contains_rev(nonempty_pred(), kept[i]);
        let j = choose|j: int| 0 <= j < all.len() && all[j] == kept[i];
        assert(!all[j].contains(sep));
    }
}

/// Splits `s` at every `sep` and keeps the non-empty pieces.
pub fn split_nonempty(s: &Vec<char>, sep: char) -> (pieces: Vec<String>)
    ensures
        pieces.deep_view() == nonempty_pieces(s@, sep),
{
    let mut pieces: Vec<String> = Vec::new();
    let mut cur: Vec<char> = Vec::new();
    let ghost mut closed: Seq<Seq<char>> = seq![];
    let mut i: usize = 0;
    assert(s@.take(0) =~= Seq::<char>::empty());
    assert(closed.push(cur@) =~= seq![seq![]]);
    while i < s.len()
        invariant
            i <= s.len(),
            split_on(s@.take(i as int), sep) == closed.push(cur@),
            pieces.deep_view() == closed.filter(nonempty_pred()),
        decreases s.len() - i,
    {
        let c = s[i];
        let ghost before = s@.take(i as int);
        assert(s@.take(i + 1).drop_last() =~= before);
        assert(s@.take(i + 1).last() == c);
        if c == sep {
            proof {
                closed.lemma_filter_push(cur@, nonempty_pred());
            }
            if cur.len() > 0 {
                let piece = string_of(&cur);
                pieces.push(piece);
            }
            proof {
                closed = closed.push(cur@);
            }
            cur = Vec::new();
            assert(pieces.deep_view() =~= closed.filter(nonempty_pred()));
            assert(split_on(s@.take(i + 1), sep) =~= closed.push(cur@));
        } else {
            let ghost old_cur = cur@;
            cur.push(c);
            assert(split_on(s@.take(i + 1), sep) =~= closed.push(cur@)) by {
                assert(closed.push(old_cur).update(closed.len() as int, old_cur.push(c))
                    =~= closed.push(old_cur.push(c)));
            }
        }
        i = i + 1;
    }
    assert(s@.take(s.len() as int) =~= s@);
    proof {
        closed.lemma_filter_push(cur@, nonempty_pred());
    }
    if cur.len() > 0 {
        let piece = string_of(&cur);
        pieces.push(piece);
    }
    assert(pieces.deep_view() =~= closed.push(cur@).filter(nonempty_pred()));
    pieces
}

/// `str::replace(pat, "")`: every non-overlapping occurrence of `pat`,
/// scanning from the left, removed. An empty `pat` leaves `s` unchanged.
pub open spec fn remove_all(s: Seq<char>, pat: Seq<char>) -> Seq<char>
    decreases s.len(),
{
    if pat.len() == 0 || s.len() < pat.len() {
        s
    } else if s.subrange(0, pat.len() as int) == pat {
        remove_all(s.skip(pat.len() as int), pat)
    } else {
        seq![s[0]] + remove_all(s.skip(1), pat)
    }
}

/// Whether `pat` occurs in `s` at position `at`.
fn occurs_at(s: &Vec<char>, pat: &Vec<char>, at: usize) -> (b: bool)
    requires
        at + pat.len() <= s.len(),
    ensures
        b == (s@.subrange(at as int, at + pat.len()) == pat@),
{
    let mut k: usize = 0;
    while k < pat.len()
        invariant
            at + pat.len() <= s.len(),
            k <= pat.len(),
            s@.subrange(at as int, at + k) == pat@.subrange(0, k as int),
        decreases pat.len() - k,
    {
        if s[at + k] != pat[k] {
            assert(s@.subrange(at as int, at + pat.len())[k as int] != pat@[k as int]);
            return false;
        }
        assert(s@.subrange(at as int, at + k + 1) =~= pat@.subrange(0, k + 1));
        k = k + 1;
    }
    assert(pat@.subrange(0, pat.len() as int) =~= pat@);
    true
}

/// Removes every occurrence of `pat` from `s`, as `str::replace(pat, "")`.
pub fn remove_occurrences(s: &Vec<char>, pat: &Vec<char>) -> (r: Vec<char>)
    ensures
        r@ == remove_all(s@, pat@),
{
    if pat.len() == 0 {
        return s.clone();
    }
    let mut r: Vec<char> = Vec::new();
    let mut i: usize = 0;
    assert(s@.skip(0) =~= s@);
    while i < s.len()
        invariant
            i <= s.len(),
            pat.len() > 0,
            remove_all(s@, pat@) == r@ + remove_all(s@.skip(i as int), pat@),
        decreases s.len() - i,
    {
        let rest = Ghost(s@.skip(i as int));
        if s.len() - i < pat.len() {
            assert(remove_all(rest@, pat@) == rest@);
            while i < s.len()
                invariant
                    i <= s.len(),
                    remove_all(s@, pat@) == r@ + s@.skip(i as int),
                decreases s.len() - i,
            {
                assert(s@.skip(i as int) =~= seq![s@[i as int]] + s@.skip(i + 1));
                r.push(s[i]);
                i = i + 1;
            }
            assert(s@.skip(i as int) =~= Seq::<char>::empty());
            assert(r@ + Seq::<char>::empty() =~= r@);
            return r;
        }
        if occurs_at(s, pat, i) {
            assert(rest@.subrange(0, pat.len() as int) =~= s@.subrange(i as int, i + pat.len()));
            assert(rest@.skip(pat.len() as int) =~= s@.skip(i + pat.len()));
            i = i + pat.len();
        } else {
            assert(rest@.subrange(0, pat.len() as int) =~= s@.subrange(i as int, i + pat.len()));
            assert(rest@.skip(1) =~= s@.skip(i + 1));
            let ghost old_r = r@;
            r.push(s[i]);
            assert(old_r + (seq![s@[i as int]] + remove_all(s@.skip(i + 1), pat@))
                =~= r@ + remove_all(s@.skip(i + 1), pat@));
            i = i + 1;
        }
    }
    assert(s@.skip(i as int) =~= Seq::<char>::empty());
    assert(r@ + Seq::<char>::empty() =~= r@);
    r
}

/// `char::is_whitespace`: the Unicode `White_Space` property.
pub open spec fn is_whitespace(c: char) -> bool {
    let u = c as u32;
    (0x09 <= u <= 0x0d) || u == 0x20 || u == 0x85 || u == 0xa0 || u == 0x1680
        || (0x2000 <= u <= 0x200a) || u == 0x2028 || u == 0x2029 || u == 0x202f
        || u == 0x205f || u == 0x3000
}

fn whitespace(c: char) -> (b: bool)
    ensures
        b == is_whitespace(c),
{
    let u = c as u32;
    (0x09 <= u && u <= 0x0d) || u == 0x20 || u == 0x85 || u == 0xa0 || u == 0x1680
        || (0x2000 <= u && u <= 0x200a) || u == 0x2028 || u == 0x2029 || u == 0x202f
        || u == 0x205f || u == 0x3000
}

/// `str::trim_start`.
pub open spec fn trim_start(s: Seq<char>) -> Seq<char>
    decreases s.len(),
{
    if s.len() > 0 && is_whitespace(s[0]) {
        trim_start(s.skip(1))
    } else {
        s
    }
}

/// `str::trim_end`.
pub open spec fn trim_end(s: Seq<char>) -> Seq<char>
    decreases s.len(),
{
    if s.len() > 0 && is_whitespace(s.last()) {
        trim_end(s.drop_last())
    } else {
        s
    }
}

/// `str::trim`: leading and trailing white space removed.
pub open spec fn trim(s: Seq<char>) -> Seq<char> {
    trim_end(trim_start(s))
}

proof fn lemma_trim_start(s: Seq<char>)
    ensures
        exists|a: int|
            0 <= a <= s.len() && trim_start(s) == s.skip(a) && (forall|i: int|
                0 <= i < a ==> is_whitespace(#[trigger] s[i])),
        trim_start(s).len() == 0 || !is_whitespace(trim_start(s)[0]),
    decreases s.len(),
{
    if s.len() > 0 && is_whitespace(s[0]) {
        lemma_trim_start(s.skip(1));
        let a = choose|a: int|
            0 <= a <= s.skip(1).len() && trim_start(s.skip(1)) == s.skip(1).skip(a) && (forall|i: int|
                0 <= i < a ==> is_whitespace(#[trigger] s.skip(1)[i]));
        assert(s.skip(1).skip(a) =~= s.skip(a + 1));
        assert forall|i: int| 0 <= i < a + 1 implies is_whitespace(#[trigger] s[i]) by {
            if i > 0 {
                assert(s[i] == s.skip(1)[i - 1]);
            }
        }
    } else {
        assert(s.skip(0) =~= s);
    }
}

proof fn lemma_trim_end(s: Seq<char>)
    ensures
        exists|b: int|
            0 <= b <= s.len() && trim_end(s) == s.take(b) && (forall|i: int|
                b <= i < s.len() ==> is_whitespace(#[trigger] s[i])),
        trim_end(s).len() == 0 || !is_whitespace(trim_end(s).last()),
    decreases s.len(),
{
    if s.len() > 0 && is_whitespace(s.last()) {
        lemma_trim_end(s.drop_last());
        let b = choose|b: int|
            0 <= b <= s.drop_last().len() && trim_end(s.drop_last()) == s.drop_last().take(b) && (
            forall|i: int| b <= i < s.drop_last().len() ==> is_whitespace(#[trigger] s.drop_last()[i]));
        assert(s.drop_last().take(b) =~= s.take(b));
        assert forall|i: int| b <= i < s.len() implies is_whitespace(#[trigger] s[i]) by {
            if i < s.len() - 1 {
                assert(s[i] == s.drop_last()[i]);
            }
        }
    } else {
        assert(s.take(s.len() as int) =~= s);
    }
}

/// Trimming removes white space at both ends and nothing else: the result
/// is a stretch of `s`, with white space only around it, and neither starts
/// nor ends with white space.
pub proof fn law_trim_strips_ends(s: Seq<char>)
    ensures
        exists|a: int, b: int|
            0 <= a <= b <= s.len() && trim(s) == s.subrange(a, b) && (forall|i: int|
                0 <= i < a ==> is_whitespace(#[trigger] s[i])) && (forall|i: int|
                b <= i < s.len() ==> is_whitespace(#[trigger] s[i])),
        trim(s).len() == 0 || (!is_whitespace(trim(s)[0]) && !is_whitespace(trim(s).last())),
{
    lemma_trim_start(s);
    let a = choose|a: int|
        0 <= a <= s.len() && trim_start(s) == s.skip(a) && (forall|i: int|
            0 <= i < a ==> is_whitespace(#[trigger] s[i]));
    let u = trim_start(s);
    lemma_trim_end(u);
    let b = choose|b: int|
        0 <= b <= u.len() && trim_end(u) == u.take(b) && (forall|i: int|
            b <= i < u.len() ==> is_whitespace(#[trigger] u[i]));
    assert(u.take(b) =~= s.subrange(a, a + b));
    assert forall|i: int| a + b <= i < s.len() implies is_whitespace(#[trigger] s[i]) by {
        assert(s[i] == u[i - a]);
    }
    if trim(s).len() > 0 {
        assert(trim(s)[0] == u[0]);
    }
}

/// Removes leading and trailing white space, as `str::trim`.
pub fn trimmed(s: &Vec<char>) -> (r: Vec<char>)
    ensures
        r@ == trim(s@),
{
    let mut a: usize = 0;
    assert(s@.skip(0) =~= s@);
    while a < s.len() && whitespace(s[a])
        invariant
            a <= s.len(),
            trim_start(s@) == trim_start(s@.skip(a as int)),
        decreases s.len() - a,
    {
        assert(s@.skip(a as int).skip(1) =~= s@.skip(a + 1));
        a = a + 1;
    }
    let ghost front = s@.skip(a as int);
    assert(trim_start(s@) == front);
    let mut b: usize = s.len();
    assert(front.subrange(0, (b - a) as int) =~= front);
    while b > a && whitespace(s[b - 1])
        invariant
            a <= b <= s.len(),
            front == s@.skip(a as int),
            trim_end(front) == trim_end(front.subrange(0, (b - a) as int)),
        decreases b,
    {
        assert(front.subrange(0, (b - a) as int).drop_last() =~= front.subrange(0, (b - 1 - a) as int));
        b = b - 1;
    }
    let mut r: Vec<char> = Vec::new();
    let mut k: usize = a;
    while k < b
        invariant
            a <= k <= b <= s.len(),
            r@ == s@.subrange(a as int, k as int),
        decreases b - k,
    {
        r.push(s[k]);
        assert(r@ =~= s@.subrange(a as int, k + 1));
        k = k + 1;
    }
    assert(r@ =~= front.subrange(0, (b - a) as int));
    r
}

} // verus!
