use vstd::prelude::*;

use crate::date::date_le;
use crate::date::date_valid;
use crate::date::validate_spec;
use crate::date::CalendarDate;
use crate::date::ValidationError;
use crate::date::validate;

verus! {

/// Removal was asked for at a position the set does not have.
#[derive(Clone, Copy, PartialEq, Eq, Structural, Debug)]
pub struct IndexError;

/// The logged events: a sequence of calendar dates. Duplicates are allowed;
/// the statistics read the set in ascending (year, month, day) order, which
/// `sort_by_date` establishes.
pub struct Dates {
    pub dates: Vec<CalendarDate>,
}

impl View for Dates {
    type V = Seq<CalendarDate>;

    open spec fn view(&self) -> Seq<CalendarDate> {
        self.dates@
    }
}

/// Non-decreasing under the (year, month, day) order.
pub open spec fn sorted_asc(s: Seq<CalendarDate>) -> bool {
    forall|i: int, j: int| 0 <= i < j < s.len() ==> date_le(#[trigger] s[i], #[trigger] s[j])
}

/// Where sorting places a date among already-sorted ones: after every entry
/// it is greater than or equal to.
pub open spec fn insert_ord(s: Seq<CalendarDate>, d: CalendarDate) -> Seq<CalendarDate>
    decreases s.len(),
{
    if s.len() == 0 {
        seq![d]
    } else if date_le(s.last(), d) {
        s.push(d)
    } else {
        insert_ord(s.drop_last(), d).push(s.last())
    }
}

/// The ascending rearrangement of a date sequence. Since the order is total
/// and entries equal under it are equal outright, this is the one sorted
/// sequence with the same entries.
pub open spec fn sorted_of(s: Seq<CalendarDate>) -> Seq<CalendarDate>
    decreases s.len(),
{
    if s.len() == 0 {
        Seq::empty()
    } else {
        insert_ord(sorted_of(s.drop_last()), s.last())
    }
}

pub proof fn lemma_insert_ord(s: Seq<CalendarDate>, d: CalendarDate)
    ensures
        insert_ord(s, d).len() == s.len() + 1,
        insert_ord(s, d).to_multiset() == s.to_multiset().insert(d),
        forall|k: int|
            0 <= k < insert_ord(s, d).len() ==> (insert_ord(s, d)[k] == d || s.contains(
                #[trigger] insert_ord(s, d)[k],
            )),
        sorted_asc(s) ==> sorted_asc(insert_ord(s, d)),
    decreases s.len(),
{
    broadcast use vstd::seq_lib::group_to_multiset_ensures;

    let r = insert_ord(s, d);
    if s.len() == 0 {
        assert(r =~= Seq::empty().push(d));
        assert(r.to_multiset() == Seq::<CalendarDate>::empty().to_multiset().insert(d));
        assert(Seq::<CalendarDate>::empty().to_multiset() =~= s.to_multiset());
    } else if date_le(s.last(), d) {
        assert(forall|k: int| 0 <= k < s.len() ==> s.contains(#[trigger] s[k]));
        assert(sorted_asc(s) ==> sorted_asc(r)) by {
            if sorted_asc(s) {
                assert forall|i: int, j: int| 0 <= i < j < r.len() implies date_le(
                    #[trigger] r[i],
                    #[trigger] r[j],
                ) by {
                    if j < s.len() {
                    } else {
                        assert(r[j] == d);
                        assert(date_le(s[i], s.last()) || i == s.len() - 1);
                    }
                }
            }
        }
    } else {
        let t = s.drop_last();
        lemma_insert_ord(t, d);
        let q = insert_ord(t, d);
        assert(s =~= t.push(s.last()));
        assert(s.to_multiset() == t.to_multiset().insert(s.last()));
        assert(r.to_multiset() == q.to_multiset().insert(s.last()));
        assert(q.to_multiset() == t.to_multiset().insert(d));
        assert(r.to_multiset() =~= s.to_multiset().insert(d)) by {
            assert(t.to_multiset().insert(d).insert(s.last()) =~= t.to_multiset().insert(
                s.last(),
            ).insert(d));
        }
        assert(forall|k: int| 0 <= k < t.len() ==> s.contains(#[trigger] t[k]));
        assert(forall|k: int|
            0 <= k < r.len() ==> (r[k] == d || s.contains(#[trigger] r[k]))) by {
            assert(forall|k: int| 0 <= k < q.len() ==> r[k] == #[trigger] q[k]);
            assert(r[r.len() - 1] == s.last());
            assert(s.contains(s.last()));
            assert(forall|k: int|
                0 <= k < q.len() ==> (q[k] == d || t.contains(#[trigger] q[k])));
        }
        if sorted_asc(s) {
            assert(sorted_asc(t)) by {
                assert(forall|k: int| 0 <= k < t.len() ==> t[k] == s[k]);
            }
            assert(sorted_asc(q));
            // every entry of q is at most s.last(): it is d (below s.last by
            // totality of the order) or an entry of t
            assert(!date_le(s.last(), d));
            assert(date_le(d, s.last()));
            assert forall|i: int, j: int| 0 <= i < j < r.len() implies date_le(
                #[trigger] r[i],
                #[trigger] r[j],
            ) by {
                if j < q.len() {
                    assert(r[i] == q[i] && r[j] == q[j]);
                } else {
                    assert(r[j] == s.last());
                    assert(r[i] == q[i]);
                    assert(q[i] == d || t.contains(q[i]));
                    if t.contains(q[i]) {
                        let w = choose|w: int| 0 <= w < t.len() && t[w] == q[i];
                        assert(date_le(s[w], s.last()));
                    }
                }
            }
        }
    }
}

pub proof fn lemma_sorted_of(s: Seq<CalendarDate>)
    ensures
        sorted_of(s).len() == s.len(),
        sorted_of(s).to_multiset() == s.to_multiset(),
        sorted_asc(sorted_of(s)),
    decreases s.len(),
{
    broadcast use vstd::seq_lib::group_to_multiset_ensures;

    if s.len() == 0 {
        assert(sorted_of(s) =~= s);
    } else {
        let t = s.drop_last();
        lemma_sorted_of(t);
        lemma_insert_ord(sorted_of(t), s.last());
        assert(s =~= t.push(s.last()));
        assert(s.to_multiset() == t.to_multiset().insert(s.last()));
    }
}

/// Sorting an already ascending sequence leaves it as it is.
pub proof fn lemma_sorted_of_id(s: Seq<CalendarDate>)
    requires
        sorted_asc(s),
    ensures
        sorted_of(s) == s,
    decreases s.len(),
{
    if s.len() == 0 {
        assert(sorted_of(s) =~= s);
    } else {
        let t = s.drop_last();
        assert(sorted_asc(t)) by {
            assert(forall|k: int| 0 <= k < t.len() ==> t[k] == s[k]);
        }
        lemma_sorted_of_id(t);
        if t.len() == 0 {
            assert(sorted_of(s) =~= s);
        } else {
            assert(date_le(t.last(), s.last()));
            assert(sorted_of(s) == t.push(s.last()));
            assert(t.push(s.last()) =~= s);
        }
    }
}

/// Sorting yields an ascending rearrangement of the same entries, and doing
/// it twice changes nothing beyond the first time.
pub proof fn lemma_sort_idempotent(s: Seq<CalendarDate>)
    ensures
        sorted_asc(sorted_of(s)),
        sorted_of(s).to_multiset() == s.to_multiset(),
        sorted_of(sorted_of(s)) == sorted_of(s),
{
    lemma_sorted_of(s);
    lemma_sorted_of_id(sorted_of(s));
}

/// Places `d` at the position `insert_ord` names, found by scanning from
/// the end past every entry greater than `d`.
fn insert_ordered(v: &mut Vec<CalendarDate>, d: CalendarDate)
    ensures
        final(v)@ == insert_ord(old(v)@, d),
{
    let mut q: usize = v.len();
    loop
        invariant
            q <= v@.len(),
            v@ == old(v)@,
            forall|j: int| q <= j < v@.len() ==> !date_le(#[trigger] v@[j], d),
        ensures
            q <= v@.len(),
            v@ == old(v)@,
            forall|j: int| q <= j < v@.len() ==> !date_le(#[trigger] v@[j], d),
            q > 0 ==> date_le(v@[q - 1], d),
        decreases q,
    {
        if q == 0 {
            break ;
        }
        let prev = v[q - 1];
        if date_le_exec(prev, d) {
            break ;
        }
        q = q - 1;
    }
    proof {
        lemma_insert_ord_at(v@, d, q as int);
    }
    v.insert(q, d);
    proof {
        assert(old(v)@.insert(q as int, d) =~= old(v)@.subrange(0, q as int) + seq![d] + old(
            v,
        )@.subrange(q as int, old(v)@.len() as int));
    }
}

/// `insert_ord` splits the sequence exactly at the scanned-for position.
proof fn lemma_insert_ord_at(s: Seq<CalendarDate>, d: CalendarDate, q: int)
    requires
        0 <= q <= s.len(),
        q > 0 ==> date_le(s[q - 1], d),
        forall|j: int| q <= j < s.len() ==> !date_le(#[trigger] s[j], d),
    ensures
        insert_ord(s, d) == s.subrange(0, q) + seq![d] + s.subrange(q, s.len() as int),
    decreases s.len(),
{
    if s.len() == 0 {
        assert(insert_ord(s, d) =~= s.subrange(0, 0) + seq![d] + s.subrange(0, 0));
    } else if date_le(s.last(), d) {
        assert(q == s.len());
        assert(s.push(d) =~= s.subrange(0, q) + seq![d] + s.subrange(q, s.len() as int));
    } else {
        let t = s.drop_last();
        assert(q < s.len());
        assert(forall|j: int| q <= j < t.len() ==> t[j] == s[j] && !date_le(#[trigger] s[j], d));
        assert(q > 0 ==> t[q - 1] == s[q - 1]);
        lemma_insert_ord_at(t, d, q);
        assert(insert_ord(t, d).push(s.last()) =~= s.subrange(0, q) + seq![d] + s.subrange(
            q,
            s.len() as int,
        ));
    }
}

/// Decides the ascending (year, month, day) order.
fn date_le_exec(a: CalendarDate, b: CalendarDate) -> (r: bool)
    ensures
        r == date_le(a, b),
{
    if a.year != b.year {
        a.year < b.year
    } else if a.month != b.month {
        a.month < b.month
    } else {
        a.day <= b.day
    }
}

impl Dates {
    /// An empty set of logged dates.
    pub fn new() -> (r: Dates)
        ensures
            r@ == Seq::<CalendarDate>::empty(),
    {
        Dates { dates: Vec::new() }
    }

    /// Appends a date after validating its ranges; a rejected date leaves
    /// the set exactly as it was. The set is not re-sorted here.
    pub fn add(&mut self, d: CalendarDate) -> (r: Result<(), ValidationError>)
        ensures
            r == validate_spec(d),
            date_valid(d) ==> final(self)@ == old(self)@.push(d),
            !date_valid(d) ==> final(self)@ == old(self)@,
    {
        match validate(d) {
            Ok(()) => {
                self.dates.push(d);
                Ok(())
            },
            Err(e) => Err(e),
        }
    }

    /// Removes the entry at `index`, shifting the later ones left; an
    /// out-of-bounds index is reported and changes nothing.
    pub fn remove_at(&mut self, index: usize) -> (r: Result<CalendarDate, IndexError>)
        ensures
            index < old(self)@.len() ==> r == Result::<CalendarDate, IndexError>::Ok(
                old(self)@[index as int],
            ) && final(self)@ == old(self)@.remove(index as int),
            index >= old(self)@.len() ==> r == Result::<CalendarDate, IndexError>::Err(IndexError)
                && final(self)@ == old(self)@,
    {
        if index < self.dates.len() {
            Ok(self.dates.remove(index))
        } else {
            Err(IndexError)
        }
    }

    /// The entries in ascending (year, month, day) order, leaving the set
    /// itself untouched.
    pub fn sorted_dates(&self) -> (r: Vec<CalendarDate>)
        ensures
            r@ == sorted_of(self@),
    {
        let mut r: Vec<CalendarDate> = Vec::new();
        let n = self.dates.len();
        let mut i: usize = 0;
        proof {
            assert(self@.subrange(0, 0) =~= Seq::<CalendarDate>::empty());
        }
        while i < n
            invariant
                i <= n == self@.len(),
                r@ == sorted_of(self@.subrange(0, i as int)),
            decreases n - i,
        {
            let d = self.dates[i];
            insert_ordered(&mut r, d);
            proof {
                let pre = self@.subrange(0, i as int);
                let post = self@.subrange(0, i + 1);
                assert(post.drop_last() =~= pre);
                assert(post.last() == self@[i as int]);
            }
            i = i + 1;
        }
        proof {
            assert(self@.subrange(0, n as int) =~= self@);
        }
        r
    }

    /// Rearranges the set into ascending (year, month, day) order. Entries
    /// equal under the order are equal triples, so the result is the one
    /// ascending arrangement of the same entries.
    pub fn sort_by_date(&mut self)
        ensures
            final(self)@ == sorted_of(old(self)@),
            sorted_asc(final(self)@),
            final(self)@.to_multiset() == old(self)@.to_multiset(),
    {
        proof {
            lemma_sorted_of(self@);
        }
        let sorted = self.sorted_dates();
        self.dates = sorted;
    }

    /// How many dates are logged.
    pub fn len(&self) -> (r: usize)
        ensures
            r == self@.len(),
    {
        self.dates.len()
    }
}

} // verus!
