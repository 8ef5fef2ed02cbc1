use vstd::prelude::*;

verus! {

/// ASCII codes the record format is built from.
pub open spec fn is_digit_byte(b: u8) -> bool {
    48 <= b <= 57
}

pub open spec fn digit_val(b: u8) -> nat {
    if b >= 48 {
        (b - 48) as nat
    } else {
        0
    }
}

pub open spec fn all_digits(s: Seq<u8>) -> bool {
    forall|i: int| 0 <= i < s.len() ==> is_digit_byte(#[trigger] s[i])
}

/// A token that can stand for a base-10 number: at least one byte, all digits.
pub open spec fn dec_token_ok(s: Seq<u8>) -> bool {
    s.len() >= 1 && all_digits(s)
}

/// Numeric value of a digit string, most significant digit first.
pub open spec fn dec_val(s: Seq<u8>) -> nat
    decreases s.len(),
{
    if s.len() == 0 {
        0
    } else {
        dec_val(s.drop_last()) * 10 + digit_val(s.last())
    }
}

/// The canonical base-10 rendering of a number: no sign, no padding,
/// a single "0" for zero.
pub open spec fn dec_of(n: nat) -> Seq<u8>
    decreases n,
{
    if n < 10 {
        seq![(48 + n) as u8]
    } else {
        dec_of(n / 10).push((48 + n % 10) as u8)
    }
}

/// The canonical rendering of a signed number: a leading minus sign for
/// negative values, the plain digits otherwise.
pub open spec fn dec_of_int(y: int) -> Seq<u8> {
    if y >= 0 {
        dec_of(y as nat)
    } else {
        seq![45u8] + dec_of((-y) as nat)
    }
}

/// Index of the first occurrence of `b` in `s`, or `s.len()` if absent.
pub open spec fn find_byte(s: Seq<u8>, b: u8) -> int
    decreases s.len(),
{
    if s.len() == 0 {
        0
    } else if s[0] == b {
        0
    } else {
        1 + find_byte(s.subrange(1, s.len() as int), b)
    }
}

pub proof fn lemma_find_byte_bounds(s: Seq<u8>, b: u8)
    ensures
        0 <= find_byte(s, b) <= s.len(),
        forall|j: int| 0 <= j < find_byte(s, b) ==> s[j] != b,
        find_byte(s, b) < s.len() ==> s[find_byte(s, b)] == b,
    decreases s.len(),
{
    if s.len() > 0 && s[0] != b {
        let t = s.subrange(1, s.len() as int);
        lemma_find_byte_bounds(t, b);
        assert forall|j: int| 0 <= j < find_byte(s, b) implies s[j] != b by {
            if j >= 1 {
                assert(t[j - 1] == s[j]);
            }
        }
    }
}

/// `find_byte` is pinned down by its characteristic property, so a scan that
/// establishes the property has computed it.
pub proof fn lemma_find_byte_is(s: Seq<u8>, b: u8, k: int)
    requires
        0 <= k <= s.len(),
        forall|j: int| 0 <= j < k ==> s[j] != b,
        k < s.len() ==> s[k] == b,
    ensures
        find_byte(s, b) == k,
    decreases s.len(),
{
    if s.len() == 0 {
    } else if s[0] == b {
        assert(k == 0);
    } else {
        let t = s.subrange(1, s.len() as int);
        assert(k >= 1);
        assert(forall|j: int| 0 <= j < k - 1 ==> t[j] == s[j + 1] && s[j + 1] != b);
        lemma_find_byte_is(t, b, k - 1);
    }
}

/// Dropping bytes from the right of a token can only shrink its value.
pub proof fn lemma_dec_val_prefix(s: Seq<u8>, k: int)
    requires
        0 <= k <= s.len(),
    ensures
        dec_val(s.subrange(0, k)) <= dec_val(s),
    decreases s.len() - k,
{
    if k == s.len() {
        assert(s.subrange(0, k) =~= s);
    } else {
        let a = s.subrange(0, k);
        let b = s.subrange(0, k + 1);
        assert(b.drop_last() =~= a);
        assert(dec_val(b) == dec_val(a) * 10 + digit_val(b.last()));
        lemma_dec_val_prefix(s, k + 1);
    }
}

/// The canonical rendering is made of digits and reads back as the number
/// it was made from.
pub proof fn lemma_dec_of(n: nat)
    ensures
        dec_of(n).len() >= 1,
        all_digits(dec_of(n)),
        dec_val(dec_of(n)) == n,
    decreases n,
{
    if n < 10 {
        let s = dec_of(n);
        assert(s.drop_last() =~= Seq::<u8>::empty());
        assert(dec_val(Seq::<u8>::empty()) == 0);
        assert(dec_val(s) == dec_val(s.drop_last()) * 10 + digit_val(s.last()));
    } else {
        lemma_dec_of(n / 10);
        let s = dec_of(n);
        assert(s.drop_last() =~= dec_of(n / 10));
        assert(dec_val(s) == (n / 10) * 10 + digit_val((48 + n % 10) as u8));
        assert((n / 10) * 10 + n % 10 == n) by (nonlinear_arith);
    }
}

/// Appends the base-10 digits of `n` to `out`.
pub fn push_dec(out: &mut Vec<u8>, n: u32)
    ensures
        final(out)@ == old(out)@ + dec_of(n as nat),
    decreases n,
{
    if n < 10 {
        out.push(48 + n as u8);
        assert(final(out)@ =~= old(out)@ + dec_of(n as nat));
    } else {
        push_dec(out, n / 10);
        out.push(48 + (n % 10) as u8);
        assert(final(out)@ =~= old(out)@ + dec_of(n as nat));
    }
}

/// Scans `bytes[from..to)` for the first occurrence of `target`.
pub fn find_byte_from(bytes: &[u8], from: usize, to: usize, target: u8) -> (k: usize)
    requires
        from <= to <= bytes@.len(),
    ensures
        from <= k <= to,
        k - from == find_byte(bytes@.subrange(from as int, to as int), target),
        k < to ==> bytes@[k as int] == target,
        forall|j: int| from <= j < k ==> bytes@[j] != target,
{
    let mut i: usize = from;
    while i < to
        invariant
            from <= i <= to <= bytes@.len(),
            forall|j: int| from <= j < i ==> bytes@[j] != target,
        decreases to - i,
    {
        if bytes[i] == target {
            proof {
                let s = bytes@.subrange(from as int, to as int);
                lemma_find_byte_is(s, target, i - from);
            }
            return i;
        }
        i = i + 1;
    }
    proof {
        let s = bytes@.subrange(from as int, to as int);
        lemma_find_byte_is(s, target, to - from);
    }
    to
}

/// Reads `bytes[from..to)` as an unsigned base-10 number of at most `bound`;
/// rejects an empty range, a non-digit byte, and a value above `bound`.
pub fn parse_dec_range(bytes: &[u8], from: usize, to: usize, bound: u32) -> (r: Option<u32>)
    requires
        from <= to <= bytes@.len(),
    ensures
        ({
            let t = bytes@.subrange(from as int, to as int);
            match r {
                Some(v) => dec_token_ok(t) && dec_val(t) == v && v <= bound,
                None => !(dec_token_ok(t) && dec_val(t) <= bound),
            }
        }),
{
    let ghost t = bytes@.subrange(from as int, to as int);
    if from == to {
        return None;
    }
    let mut acc: u64 = 0;
    let mut i: usize = from;
    while i < to
        invariant
            from <= i <= to <= bytes@.len(),
            t == bytes@.subrange(from as int, to as int),
            all_digits(t.subrange(0, i - from)),
            acc == dec_val(t.subrange(0, i - from)),
            acc <= bound,
            bound <= u32::MAX,
        decreases to - i,
    {
        let b = bytes[i];
        proof {
            assert(t[i - from] == bytes@[i as int]);
        }
        if b < 48 || b > 57 {
            assert(!all_digits(t));
            return None;
        }
        let d: u64 = (b - 48) as u64;
        let next: u64 = acc * 10 + d;
        proof {
            let pre = t.subrange(0, i - from);
            let post = t.subrange(0, i - from + 1);
            assert(post.drop_last() =~= pre);
            assert(post.last() == t[i - from]);
            assert(dec_val(post) == dec_val(pre) * 10 + digit_val(t[i - from]));
        }
        if next > bound as u64 {
            proof {
                lemma_dec_val_prefix(t, i - from + 1);
            }
            return None;
        }
        acc = next;
        i = i + 1;
    }
    proof {
        assert(t.subrange(0, to - from) =~= t);
    }
    Some(acc as u32)
}

} // verus!
