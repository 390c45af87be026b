use vstd::prelude::*;
use vstd::string::StringSliceAdditionalSpecFns;

verus! {

/// Index of the first `.` in `b` at or after `from`, `b.len()` when there is none.
pub open spec fn next_dot(b: Seq<u8>, from: int) -> int
    decreases b.len() - from,
{
    if from < 0 || from >= b.len() {
        b.len() as int
    } else if b[from] == 46 {
        from
    } else {
        next_dot(b, from + 1)
    }
}

/// Every byte of `s` is an ASCII digit.
pub open spec fn all_digits(s: Seq<u8>) -> bool {
    forall|i: int| 0 <= i < s.len() ==> 48 <= #[trigger] s[i] <= 57
}

/// The number the ASCII digits `s` write in base 10.
pub open spec fn digits_value(s: Seq<u8>) -> int
    decreases s.len(),
{
    if s.len() == 0 {
        0
    } else {
        digits_value(s.drop_last()) * 10 + (s.last() - 48)
    }
}

/// What `str::parse::<i32>` gives for the bytes `s`: an optional `+` or `-`,
/// then one or more ASCII digits, whose value fits in an `i32`.
pub open spec fn parse_i32_spec(s: Seq<u8>) -> Option<i32> {
    let signed = s.len() > 0 && (s[0] == 45 || s[0] == 43);
    let d = if signed { s.drop_first() } else { s };
    let v = if s.len() > 0 && s[0] == 45 { -digits_value(d) } else { digits_value(d) };
    if d.len() == 0 || !all_digits(d) || v < i32::MIN || v > i32::MAX {
        Option::None
    } else {
        Option::Some(v as i32)
    }
}

/// The coordinates in a region file name `r.<x>.<z>...`: its first three parts
/// between dots must be `r` and two numbers.
pub open spec fn pos_spec(b: Seq<u8>) -> Option<(i32, i32)> {
    let d1 = next_dot(b, 0);
    let d2 = next_dot(b, d1 + 1);
    let d3 = next_dot(b, d2 + 1);
    if d1 < b.len() && d2 < b.len() && b.subrange(0, d1) == seq![114u8] {
        match (parse_i32_spec(b.subrange(d1 + 1, d2)), parse_i32_spec(b.subrange(d2 + 1, d3))) {
            (Option::Some(x), Option::Some(z)) => Option::Some((x, z)),
            _ => Option::None,
        }
    } else {
        Option::None
    }
}

/// `next_dot` lands on a dot or at the end, and passes no dot on the way.
proof fn lemma_next_dot(b: Seq<u8>, from: int)
    requires
        0 <= from <= b.len(),
    ensures
        from <= next_dot(b, from) <= b.len(),
        next_dot(b, from) < b.len() ==> b[next_dot(b, from)] == 46,
        forall|i: int| from <= i < next_dot(b, from) ==> b[i] != 46,
    decreases b.len() - from,
{
    if from < b.len() && b[from] != 46 {
        lemma_next_dot(b, from + 1);
    }
}

/// A prefix of digits is worth no more than the whole run.
proof fn lemma_digits_prefix(s: Seq<u8>, k: int)
    requires
        all_digits(s),
        0 <= k <= s.len(),
    ensures
        0 <= digits_value(s.subrange(0, k)) <= digits_value(s),
    decreases s.len() - k,
{
    lemma_digits_nonneg(s.subrange(0, k));
    if k < s.len() {
        lemma_digits_prefix(s, k + 1);
        assert(s.subrange(0, k + 1).drop_last() =~= s.subrange(0, k));
    } else {
        assert(s.subrange(0, k) =~= s);
    }
}

proof fn lemma_digits_nonneg(s: Seq<u8>)
    requires
        all_digits(s),
    ensures
        digits_value(s) >= 0,
    decreases s.len(),
{
    if s.len() > 0 {
        assert(all_digits(s.drop_last()));
        lemma_digits_nonneg(s.drop_last());
    }
}

/// Index of the first `.` in `b` at or after `from`, `b.len()` when there is none.
fn next_dot_exec(b: &[u8], from: usize) -> (r: usize)
    requires
        from <= b@.len(),
    ensures
        r == next_dot(b@, from as int),
{
    let mut i = from;
    while i < b.len()
        invariant
            from <= i <= b@.len(),
            next_dot(b@, from as int) == next_dot(b@, i as int),
        decreases b@.len() - i,
    {
        if b[i] == 46 {
            return i;
        }
        i += 1;
    }
    i
}

/// `str::parse::<i32>` on the bytes `b[start..end]`.
fn parse_i32(b: &[u8], start: usize, end: usize) -> (r: Option<i32>)
    requires
        start <= end <= b@.len(),
    ensures
        r == parse_i32_spec(b@.subrange(start as int, end as int)),
{
    let ghost s = b@.subrange(start as int, end as int);
    if start == end {
        return Option::None;
    }
    let neg = b[start] == 45;
    let signed = neg || b[start] == 43;
    let first = if signed { start + 1 } else { start };
    let ghost d = if signed { s.drop_first() } else { s };
    proof {
        assert(d =~= b@.subrange(first as int, end as int));
    }
    if first == end {
        return Option::None;
    }
    let mut acc: i64 = 0;
    let mut i = first;
    while i < end
        invariant
            first <= i <= end <= b@.len(),
            start < end,
            s == b@.subrange(start as int, end as int),
            signed == (s[0] == 45 || s[0] == 43),
            neg == (s[0] == 45),
            d == (if signed { s.drop_first() } else { s }),
            first == (if signed { start + 1 } else { start as int }),
            d == b@.subrange(first as int, end as int),
            0 <= acc <= 0x8000_0000,
            all_digits(d.subrange(0, i - first)),
            acc == digits_value(d.subrange(0, i - first)),
        decreases end - i,
    {
        let c = b[i];
        if c < 48 || c > 57 {
            proof {
                assert(d[i - first] == c);
            }
            return Option::None;
        }
        acc = acc * 10 + (c - 48) as i64;
        i += 1;
        proof {
            let k = i - first;
            assert(d.subrange(0, k).drop_last() =~= d.subrange(0, k - 1));
            assert(d.subrange(0, k).last() == c);
        }
        if acc > 0x8000_0000 {
            proof {
                if all_digits(d) {
                    lemma_digits_prefix(d, i - first);
                }
            }
            return Option::None;
        }
    }
    proof {
        assert(d.subrange(0, i - first) =~= d);
    }
    if neg {
        Option::Some((-acc) as i32)
    } else if acc > 0x7fff_ffff {
        Option::None
    } else {
        Option::Some(acc as i32)
    }
}

/// The coordinates of a region file from its name, `r.<x>.<z>.mca`: `None`
/// unless the name has at least three parts between dots, the first being `r`
/// and the next two numbers.
pub fn pos_from_name(name: &str) -> (r: Option<(i32, i32)>)
    ensures
        r == pos_spec(name.spec_bytes()),
{
    let b = name.as_bytes();
    let ghost bs = b@;
    let d1 = next_dot_exec(b, 0);
    proof {
        lemma_next_dot(bs, 0);
    }
    if d1 >= b.len() {
        return Option::None;
    }
    let d2 = next_dot_exec(b, d1 + 1);
    proof {
        lemma_next_dot(bs, d1 + 1);
    }
    if d2 >= b.len() {
        return Option::None;
    }
    let d3 = next_dot_exec(b, d2 + 1);
    proof {
        lemma_next_dot(bs, d2 + 1);
    }
    if d1 != 1 || b[0] != 114 {
        proof {
            if bs.subrange(0, d1 as int) == seq![114u8] {
                assert(bs.subrange(0, d1 as int).len() == 1);
                assert(bs.subrange(0, d1 as int)[0] == bs[0]);
            }
        }
        return Option::None;
    }
    proof {
        assert(bs.subrange(0, d1 as int) =~= seq![114u8]);
    }
    let x = parse_i32(b, d1 + 1, d2);
    let z = parse_i32(b, d2 + 1, d3);
    match (x, z) {
        (Option::Some(x), Option::Some(z)) => Option::Some((x, z)),
        _ => Option::None,
    }
}

} // verus!
