//! Byte-level text utilities shared by the solvers: ASCII conversion,
//! line splitting, decimal parsing and decimal rendering, each pinned to a
//! spec-level definition.
use vstd::prelude::*;

verus! {

use vstd::string::StringExecFns;

/// The bytes of an ASCII character sequence.
pub open spec fn ascii_bytes(s: Seq<char>) -> Seq<u8> {
    Seq::new(s.len(), |i: int| s[i] as u8)
}

/// Splits `s` on every occurrence of `b`; always returns at least one piece.
pub open spec fn split_all(s: Seq<u8>, b: u8) -> Seq<Seq<u8>>
    decreases s.len(),
{
    if s.len() == 0 {
        seq![Seq::<u8>::empty()]
    } else if s.last() == b {
        split_all(s.drop_last(), b).push(Seq::<u8>::empty())
    } else {
        let p = split_all(s.drop_last(), b);
        p.update(p.len() - 1, p.last().push(s.last()))
    }
}

pub proof fn lemma_split_all_len(s: Seq<u8>, b: u8)
    ensures
        split_all(s, b).len() >= 1,
    decreases s.len(),
{
    if s.len() > 0 {
        lemma_split_all_len(s.drop_last(), b);
    }
}

/// A line with a trailing carriage return removed.
pub open spec fn strip_cr(l: Seq<u8>) -> Seq<u8> {
    if l.len() > 0 && l.last() == 13 {
        l.drop_last()
    } else {
        l
    }
}

/// The lines of `s`, as `str::lines` produces them: split on line feeds,
/// a final line feed produces no empty last line, and each line loses a
/// trailing carriage return.
pub open spec fn lines_of(s: Seq<u8>) -> Seq<Seq<u8>> {
    if s.len() == 0 {
        Seq::<Seq<u8>>::empty()
    } else if s.last() == 10 {
        split_all(s.drop_last(), 10).map_values(|l: Seq<u8>| strip_cr(l))
    } else {
        split_all(s, 10).map_values(|l: Seq<u8>| strip_cr(l))
    }
}

/// The bytes of an ASCII string.
pub fn to_bytes(s: &str) -> (r: Vec<u8>)
    requires
        s.is_ascii(),
    ensures
        r@ == ascii_bytes(s@),
{
    proof {
        broadcast use vstd::string::is_ascii_spec_bytes;

    }
    let r = s.as_bytes_vec();
    assert(r@ =~= ascii_bytes(s@));
    r
}

/// Splits on every occurrence of `b`.
pub fn split_bytes(v: &Vec<u8>, b: u8) -> (r: Vec<Vec<u8>>)
    ensures
        r@.len() == split_all(v@, b).len(),
        forall|i: int| 0 <= i < r@.len() ==> (#[trigger] r@[i])@ == split_all(v@, b)[i],
{
    let mut r: Vec<Vec<u8>> = Vec::new();
    r.push(Vec::new());
    assert(v@.take(0) =~= Seq::<u8>::empty());
    for i in 0..v.len()
        invariant
            r@.len() == split_all(v@.take(i as int), b).len(),
            r@.len() >= 1,
            forall|j: int| 0 <= j < r@.len() ==> (#[trigger] r@[j])@ == split_all(
                v@.take(i as int),
                b,
            )[j],
        decreases v.len() - i,
    {
        assert(v@.take(i + 1).drop_last() =~= v@.take(i as int));
        let ghost p = split_all(v@.take(i as int), b);
        let ghost q = split_all(v@.take(i + 1), b);
        if v[i] == b {
            r.push(Vec::new());
            assert(q == p.push(Seq::<u8>::empty()));
        } else {
            let ghost r0 = r@;
            let mut cur = r.pop().unwrap();
            assert(cur == r0[r0.len() - 1]);
            assert(cur@ == p[p.len() - 1]);
            cur.push(v[i]);
            assert(cur@ == p[p.len() - 1].push(v@[i as int]));
            r.push(cur);
            assert(r@ == r0.subrange(0, r0.len() - 1).push(cur));
            assert(q == p.update(p.len() - 1, p.last().push(v@[i as int])));
            assert(q.len() == p.len() == r@.len());
            assert(r@[r@.len() - 1] == cur);
            assert(r@[r@.len() - 1]@ == q[q.len() - 1]);
            assert(forall|j: int| 0 <= j < r@.len() - 1 ==> #[trigger] r@[j] == r0[j]);
            assert(forall|j: int| 0 <= j < r@.len() - 1 ==> (#[trigger] r@[j])@ == q[j]);
        }
    }
    assert(v@.take(v@.len() as int) =~= v@);
    r
}

/// The lines of `v`, as `str::lines` yields them.
pub fn lines(v: &Vec<u8>) -> (r: Vec<Vec<u8>>)
    ensures
        r@.len() == lines_of(v@).len(),
        forall|i: int| 0 <= i < r@.len() ==> r@[i]@ == lines_of(v@)[i],
{
    if v.len() == 0 {
        return Vec::new();
    }
    let mut w = v.clone();
    if w[w.len() - 1] == 10 {
        w.pop();
        assert(w@ =~= v@.drop_last());
    } else {
        assert(w@ =~= v@);
    }
    let pieces = split_bytes(&w, 10);
    let mut r: Vec<Vec<u8>> = Vec::new();
    let ghost target = lines_of(v@);
    assert(target.len() == pieces@.len());
    for i in 0..pieces.len()
        invariant
            pieces@.len() == target.len(),
            forall|j: int| 0 <= j < pieces@.len() ==> strip_cr(pieces@[j]@) == target[j],
            r@.len() == i,
            forall|j: int| 0 <= j < i ==> r@[j]@ == target[j],
        decreases pieces.len() - i,
    {
        let mut line = pieces[i].clone();
        if line.len() > 0 && line[line.len() - 1] == 13 {
            line.pop();
            assert(line@ =~= pieces@[i as int]@.drop_last());
        }
        r.push(line);
    }
    r
}

/// Whether `b` is an ASCII decimal digit.
pub open spec fn is_digit_byte(b: u8) -> bool {
    48 <= b <= 57
}

/// Whether every byte of `s` is a decimal digit.
pub open spec fn all_digits(s: Seq<u8>) -> bool {
    forall|i: int| 0 <= i < s.len() ==> is_digit_byte(#[trigger] s[i])
}

/// The value of a decimal digit string.
pub open spec fn dec_value(s: Seq<u8>) -> int
    decreases s.len(),
{
    if s.len() == 0 {
        0
    } else {
        dec_value(s.drop_last()) * 10 + (s.last() - 48)
    }
}

pub open spec fn pow10(n: nat) -> int
    decreases n,
{
    if n == 0 {
        1
    } else {
        10 * pow10((n - 1) as nat)
    }
}

pub proof fn lemma_dec_value_bound(s: Seq<u8>)
    requires
        all_digits(s),
    ensures
        0 <= dec_value(s) < pow10(s.len()),
    decreases s.len(),
{
    if s.len() > 0 {
        assert(all_digits(s.drop_last())) by {
            assert(forall|i: int|
                0 <= i < s.len() - 1 ==> #[trigger] s.drop_last()[i] == s[i]);
        }
        lemma_dec_value_bound(s.drop_last());
    }
}

/// Parses `v[from..to]` as an unsigned decimal number.
pub fn parse_u64(v: &Vec<u8>, from: usize, to: usize) -> (r: u64)
    requires
        from <= to <= v@.len(),
        to - from <= 18,
        all_digits(v@.subrange(from as int, to as int)),
    ensures
        r == dec_value(v@.subrange(from as int, to as int)),
{
    let ghost s = v@.subrange(from as int, to as int);
    let mut acc: u64 = 0;
    let mut i = from;
    while i < to
        invariant
            from <= i <= to <= v@.len(),
            to - from <= 18,
            all_digits(s),
            s == v@.subrange(from as int, to as int),
            acc == dec_value(s.take(i - from)),
            0 <= acc < pow10((i - from) as nat),
        decreases to - i,
    {
        proof {
            assert(s.take(i - from + 1).drop_last() =~= s.take(i - from));
            assert(is_digit_byte(s[i - from]));
            lemma_dec_value_bound(s.take(i - from + 1));
            assert(pow10((i - from + 1) as nat) <= pow10(18)) by {
                lemma_pow10_mono((i - from + 1) as nat, 18);
            }
            lemma_pow10_value();
        }
        acc = acc * 10 + (v[i] - 48) as u64;
        i += 1;
    }
    proof {
        assert(s.take(to - from) =~= s);
    }
    acc
}

pub proof fn lemma_pow10_value()
    ensures
        pow10(18) == 1000000000000000000,
{
    reveal_with_fuel(pow10, 20);
}

pub proof fn lemma_pow10_mono(a: nat, b: nat)
    requires
        a <= b,
    ensures
        pow10(a) <= pow10(b),
        pow10(a) >= 1,
    decreases b,
{
    if a == 0 {
        if b > 0 {
            lemma_pow10_mono(0, (b - 1) as nat);
        }
    } else {
        lemma_pow10_mono((a - 1) as nat, (b - 1) as nat);
    }
}

/// The decimal digit character for `d`.
pub open spec fn digit_char(d: int) -> char {
    if d == 0 {
        '0'
    } else if d == 1 {
        '1'
    } else if d == 2 {
        '2'
    } else if d == 3 {
        '3'
    } else if d == 4 {
        '4'
    } else if d == 5 {
        '5'
    } else if d == 6 {
        '6'
    } else if d == 7 {
        '7'
    } else if d == 8 {
        '8'
    } else {
        '9'
    }
}

/// The decimal rendering of a non-negative number.
pub open spec fn dec_chars_u(n: int) -> Seq<char>
    decreases n,
{
    if n < 10 {
        seq![digit_char(n)]
    } else {
        dec_chars_u(n / 10).push(digit_char(n % 10))
    }
}

/// The decimal rendering of a number, `-`-signed when negative.
pub open spec fn dec_chars_i(n: int) -> Seq<char> {
    if n < 0 {
        seq!['-'] + dec_chars_u(-n)
    } else {
        dec_chars_u(n)
    }
}

fn digit_str(d: u64) -> (r: &'static str)
    requires
        d < 10,
    ensures
        r@ == seq![digit_char(d as int)],
{
    proof {
        reveal_strlit("0");
        reveal_strlit("1");
        reveal_strlit("2");
        reveal_strlit("3");
        reveal_strlit("4");
        reveal_strlit("5");
        reveal_strlit("6");
        reveal_strlit("7");
        reveal_strlit("8");
        reveal_strlit("9");
    }
    let r = match d {
        0 => "0",
        1 => "1",
        2 => "2",
        3 => "3",
        4 => "4",
        5 => "5",
        6 => "6",
        7 => "7",
        8 => "8",
        _ => "9",
    };
    assert(r@ =~= seq![digit_char(d as int)]);
    r
}

/// Renders `n` in decimal.
pub fn u64_to_string(n: u64) -> (r: String)
    ensures
        r@ == dec_chars_u(n as int),
    decreases n,
{
    if n < 10 {
        String::from_str(digit_str(n))
    } else {
        let mut s = u64_to_string(n / 10);
        s.append(digit_str(n % 10));
        assert(s@ =~= dec_chars_u(n as int));
        s
    }
}

/// Renders `n` in decimal, `-`-signed when negative.
pub fn i64_to_string(n: i64) -> (r: String)
    ensures
        r@ == dec_chars_i(n as int),
{
    if n >= 0 {
        u64_to_string(n as u64)
    } else {
        let magnitude = ((-(n + 1)) as u64) + 1;
        let mut s = String::from_str("-");
        proof {
            reveal_strlit("-");
        }
        s.append(u64_to_string(magnitude).as_str());
        assert(s@ =~= dec_chars_i(n as int));
        s
    }
}

/// Renders `n` in decimal.
pub fn u128_to_string(n: u128) -> (r: String)
    ensures
        r@ == dec_chars_u(n as int),
    decreases n,
{
    if n < 10 {
        String::from_str(digit_str(n as u64))
    } else {
        let mut s = u128_to_string(n / 10);
        s.append(digit_str((n % 10) as u64));
        assert(s@ =~= dec_chars_u(n as int));
        s
    }
}

pub proof fn lemma_split_all_count(s: Seq<u8>, b: u8)
    ensures
        split_all(s, b).len() <= s.len() + 1,
    decreases s.len(),
{
    if s.len() > 0 {
        lemma_split_all_count(s.drop_last(), b);
        lemma_split_all_len(s.drop_last(), b);
    }
}

pub proof fn lemma_split_all_piece_len(s: Seq<u8>, b: u8)
    ensures
        forall|i: int|
            0 <= i < split_all(s, b).len() ==> (#[trigger] split_all(s, b)[i]).len() <= s.len(),
    decreases s.len(),
{
    if s.len() > 0 {
        lemma_split_all_piece_len(s.drop_last(), b);
        lemma_split_all_len(s.drop_last(), b);
    }
}

/// No line is longer than the input.
pub proof fn lemma_line_lens(s: Seq<u8>)
    ensures
        forall|i: int|
            0 <= i < lines_of(s).len() ==> (#[trigger] lines_of(s)[i]).len() <= s.len(),
{
    if s.len() > 0 {
        if s.last() == 10 {
            lemma_split_all_piece_len(s.drop_last(), 10);
        } else {
            lemma_split_all_piece_len(s, 10);
        }
    }
}

/// There are never more lines than bytes.
pub proof fn lemma_lines_count(s: Seq<u8>)
    ensures
        lines_of(s).len() <= s.len() + 1,
{
    if s.len() > 0 {
        if s.last() == 10 {
            lemma_split_all_count(s.drop_last(), 10);
        } else {
            lemma_split_all_count(s, 10);
        }
    }
}

/// The index of the first occurrence of `b` in `s`, or -1.
pub open spec fn find_index(s: Seq<u8>, b: u8) -> int
    decreases s.len(),
{
    if s.len() == 0 {
        -1
    } else if s[0] == b {
        0
    } else {
        let r = find_index(s.skip(1), b);
        if r == -1 {
            -1
        } else {
            1 + r
        }
    }
}

pub proof fn lemma_find_index_props(s: Seq<u8>, b: u8)
    ensures
        find_index(s, b) >= -1,
        find_index(s, b) >= 0 ==> 0 <= find_index(s, b) < s.len() && s[find_index(s, b)] == b
            && forall|j: int| 0 <= j < find_index(s, b) ==> s[j] != b,
        find_index(s, b) == -1 ==> forall|j: int| 0 <= j < s.len() ==> s[j] != b,
    decreases s.len(),
{
    if s.len() > 0 && s[0] != b {
        lemma_find_index_props(s.skip(1), b);
        if find_index(s, b) >= 0 {
            assert forall|j: int| 0 <= j < find_index(s, b) implies s[j] != b by {
                if j >= 1 {
                    assert(s[j] == s.skip(1)[j - 1]);
                }
            }
        } else {
            assert forall|j: int| 0 <= j < s.len() implies s[j] != b by {
                if j >= 1 {
                    assert(s[j] == s.skip(1)[j - 1]);
                }
            }
        }
    }
}

pub proof fn lemma_find_index_is_first(s: Seq<u8>, b: u8, i: int)
    requires
        0 <= i < s.len(),
        s[i] == b,
        forall|j: int| 0 <= j < i ==> s[j] != b,
    ensures
        find_index(s, b) == i,
    decreases s.len(),
{
    if i > 0 {
        assert(forall|j: int| 1 <= j < s.len() ==> #[trigger] s.skip(1)[j - 1] == s[j]);
        lemma_find_index_is_first(s.skip(1), b, i - 1);
    }
}

pub proof fn lemma_find_index_none(s: Seq<u8>, b: u8)
    requires
        forall|j: int| 0 <= j < s.len() ==> s[j] != b,
    ensures
        find_index(s, b) == -1,
    decreases s.len(),
{
    if s.len() > 0 {
        assert(forall|j: int| 1 <= j < s.len() ==> #[trigger] s.skip(1)[j - 1] == s[j]);
        lemma_find_index_none(s.skip(1), b);
    }
}

/// `s` with every occurrence of `b` removed.
pub open spec fn without_byte(s: Seq<u8>, b: u8) -> Seq<u8>
    decreases s.len(),
{
    if s.len() == 0 {
        Seq::<u8>::empty()
    } else {
        let r = without_byte(s.drop_last(), b);
        if s.last() == b {
            r
        } else {
            r.push(s.last())
        }
    }
}

/// Whether `v[from..to]` is one to eighteen decimal digits.
pub fn digits_ok(v: &Vec<u8>, from: usize, to: usize) -> (r: bool)
    requires
        from <= to <= v@.len(),
    ensures
        r == (all_digits(v@.subrange(from as int, to as int)) && 1 <= to - from <= 18),
{
    if to - from < 1 || to - from > 18 {
        return false;
    }
    let mut i = from;
    while i < to
        invariant
            from <= i <= to <= v@.len(),
            forall|j: int| from <= j < i ==> is_digit_byte(#[trigger] v@[j]),
        decreases to - i,
    {
        if v[i] < 48 || v[i] > 57 {
            proof {
                assert(!is_digit_byte(v@.subrange(from as int, to as int)[i - from]));
            }
            return false;
        }
        i += 1;
    }
    proof {
        assert(forall|j: int|
            0 <= j < to - from ==> v@.subrange(from as int, to as int)[j] == v@[j + from]);
    }
    true
}

/// The first occurrence of `b` in `v` at or after `from`.
pub fn find_byte(v: &Vec<u8>, from: usize, b: u8) -> (r: Option<usize>)
    requires
        from <= v@.len(),
    ensures
        match r {
            Some(i) => from <= i < v@.len() && v@[i as int] == b && forall|j: int|
                from <= j < i ==> v@[j] != b,
            None => forall|j: int| from <= j < v@.len() ==> v@[j] != b,
        },
{
    let mut i = from;
    while i < v.len()
        invariant
            from <= i <= v@.len(),
            forall|j: int| from <= j < i ==> v@[j] != b,
        decreases v@.len() - i,
    {
        if v[i] == b {
            return Some(i);
        }
        i += 1;
    }
    None
}

} // verus!
