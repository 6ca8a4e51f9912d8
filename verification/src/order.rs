use vstd::prelude::*;
use vstd::seq_lib::*;

use crate::field::{block_fields, BlockFieldModel, RegisterBlockField};

verus! {

/// `s` with `x` put behind the last element that does not start after it.
pub open spec fn inserted(s: Seq<BlockFieldModel>, x: BlockFieldModel) -> Seq<BlockFieldModel>
    decreases s.len(),
{
    if s.len() == 0 || s.last().offset <= x.offset {
        s.push(x)
    } else {
        inserted(s.drop_last(), x).push(s.last())
    }
}

/// The fields in the order of their offsets; fields with one offset keep their order.
pub open spec fn by_offset(s: Seq<BlockFieldModel>) -> Seq<BlockFieldModel>
    decreases s.len(),
{
    if s.len() == 0 {
        s
    } else {
        inserted(by_offset(s.drop_last()), s.last())
    }
}

/// Whether offsets never fall from one field to the next.
pub open spec fn is_ordered(s: Seq<BlockFieldModel>) -> bool {
    forall|i: int, j: int| 0 <= i <= j < s.len() ==> s[i].offset <= s[j].offset
}

/// The fields of `s` that start at `offset`, in the order of `s`.
pub open spec fn starting_at(s: Seq<BlockFieldModel>, offset: int) -> Seq<BlockFieldModel> {
    s.filter(|f: BlockFieldModel| f.offset == offset)
}

proof fn lemma_starting_at_push(s: Seq<BlockFieldModel>, x: BlockFieldModel, offset: int)
    ensures
        starting_at(s.push(x), offset) == if x.offset == offset {
            starting_at(s, offset).push(x)
        } else {
            starting_at(s, offset)
        },
{
    reveal(Seq::filter);
    assert(s.push(x).drop_last() =~= s);
}

proof fn lemma_inserted(s: Seq<BlockFieldModel>, x: BlockFieldModel)
    requires
        is_ordered(s),
    ensures
        is_ordered(inserted(s, x)),
        inserted(s, x).len() == s.len() + 1,
        inserted(s, x).to_multiset() == s.to_multiset().insert(x),
        s.len() > 0 && x.offset < s.last().offset ==> inserted(s, x).last() == s.last(),
        forall|offset: int|
            #![trigger starting_at(inserted(s, x), offset)]
            starting_at(inserted(s, x), offset) == starting_at(s.push(x), offset),
    decreases s.len(),
{
    broadcast use group_to_multiset_ensures;

    if s.len() == 0 || s.last().offset <= x.offset {
    } else {
        let front = s.drop_last();
        lemma_inserted(front, x);
        let r = inserted(front, x);
        assert(s =~= front.push(s.last()));
        assert(inserted(s, x) == r.push(s.last()));
        assert(r.push(s.last()).to_multiset() =~= s.to_multiset().insert(x));
        assert forall|i: int, j: int| 0 <= i <= j < r.push(s.last()).len() implies r.push(
            s.last(),
        )[i].offset <= r.push(s.last())[j].offset by {
            if j == r.len() && i < r.len() {
                assert(r[i].offset <= r.last().offset);
                if front.len() == 0 || front.last().offset <= x.offset {
                    assert(r.last() == x);
                }
            }
        }
        assert forall|offset: int|
            #![trigger starting_at(inserted(s, x), offset)]
            starting_at(inserted(s, x), offset) == starting_at(s.push(x), offset) by {
            assert(starting_at(r, offset) == starting_at(front.push(x), offset));
            lemma_starting_at_push(front, x, offset);
            lemma_starting_at_push(r, s.last(), offset);
            lemma_starting_at_push(s, x, offset);
            lemma_starting_at_push(front, s.last(), offset);
        }
    }
}

/// Putting fields in order loses none and adds none, leaves no later field before an earlier one,
/// and keeps the order of fields that start at one offset.
pub proof fn law_by_offset(s: Seq<BlockFieldModel>)
    ensures
        is_ordered(by_offset(s)),
        by_offset(s).len() == s.len(),
        by_offset(s).to_multiset() == s.to_multiset(),
        forall|offset: int|
            #![trigger starting_at(by_offset(s), offset)]
            starting_at(by_offset(s), offset) == starting_at(s, offset),
    decreases s.len(),
{
    if s.len() > 0 {
        let front = s.drop_last();
        law_by_offset(front);
        lemma_inserted(by_offset(front), s.last());
        broadcast use group_to_multiset_ensures;

        assert(s =~= front.push(s.last()));
        assert forall|offset: int|
            #![trigger starting_at(by_offset(s), offset)]
            starting_at(by_offset(s), offset) == starting_at(s, offset) by {
            assert(starting_at(by_offset(front), offset) == starting_at(front, offset));
            lemma_starting_at_push(by_offset(front), s.last(), offset);
            lemma_starting_at_push(front, s.last(), offset);
        }
    }
}

/// Putting fields in order that are in order already changes nothing.
pub proof fn law_ordered_stays(s: Seq<BlockFieldModel>)
    requires
        is_ordered(s),
    ensures
        by_offset(s) == s,
    decreases s.len(),
{
    if s.len() > 0 {
        law_ordered_stays(s.drop_last());
        assert(s.drop_last().push(s.last()) =~= s);
    }
}

pub proof fn lemma_by_offset_contains(s: Seq<BlockFieldModel>, x: BlockFieldModel)
    ensures
        by_offset(s).contains(x) <==> s.contains(x),
{
    law_by_offset(s);
    broadcast use group_to_multiset_ensures;

    assert(s.contains(x) <==> s.to_multiset().count(x) > 0);
    assert(by_offset(s).contains(x) <==> by_offset(s).to_multiset().count(x) > 0);
}

proof fn lemma_inserted_at(s: Seq<BlockFieldModel>, x: BlockFieldModel, k: int)
    requires
        0 <= k <= s.len(),
        k == 0 || s[k - 1].offset <= x.offset,
        forall|j: int| k <= j < s.len() ==> x.offset < (#[trigger] s[j]).offset,
    ensures
        inserted(s, x) == s.insert(k, x),
    decreases s.len(),
{
    if k == s.len() {
        assert(s.insert(k, x) =~= s.push(x));
    } else {
        lemma_inserted_at(s.drop_last(), x, k);
        assert(s.drop_last().insert(k, x).push(s.last()) =~= s.insert(k, x));
    }
}

/// Puts block fields in the order of their offsets; fields with one offset keep their order.
pub fn sort_by_offset(fields: Vec<RegisterBlockField>) -> (r: Vec<RegisterBlockField>)
    ensures
        block_fields(r@) == by_offset(block_fields(fields@)),
{
    let mut left = fields;
    let mut r: Vec<RegisterBlockField> = Vec::new();
    let ghost all = block_fields(fields@);
    let n: usize = left.len();
    let mut i: usize = 0;
    assert(all.take(0) =~= block_fields(r@));
    assert(all.skip(0) =~= block_fields(left@));
    while i < n
        invariant
            i <= n,
            n == all.len(),
            left@.len() == n - i,
            block_fields(left@) == all.skip(i as int),
            block_fields(r@) == by_offset(all.take(i as int)),
        decreases n - i,
    {
        let ghost waiting = left@;
        let x = left.remove(0);
        let ghost sorted = block_fields(r@);
        proof {
            assert(x.model() == block_fields(waiting)[0]);
            assert forall|j: int| 0 <= j < left@.len() implies block_fields(left@)[j] == all.skip(
                i + 1,
            )[j] by {
                assert(left@[j] == waiting[j + 1]);
                assert(block_fields(waiting)[j + 1] == all.skip(i as int)[j + 1]);
            }
            assert(block_fields(left@) =~= all.skip(i + 1));
            assert(all.take(i + 1).drop_last() =~= all.take(i as int));
        }
        let mut k: usize = r.len();
        while k > 0 && r[k - 1].offset > x.offset
            invariant
                k <= r@.len(),
                sorted == block_fields(r@),
                forall|j: int|
                    k <= j < r@.len() ==> x.model().offset < (#[trigger] sorted[j]).offset,
            decreases k,
        {
            k -= 1;
        }
        proof {
            lemma_inserted_at(sorted, x.model(), k as int);
        }
        let ghost m = x.model();
        r.insert(k, x);
        assert(block_fields(r@) =~= sorted.insert(k as int, m));
        i += 1;
    }
    assert(all.take(i as int) =~= all);
    r
}

/// No field stands before one that starts earlier, and of two fields that start at one place the
/// one that was first stays first.
pub proof fn law_offsets_rise(s: Seq<BlockFieldModel>, i: int, j: int)
    requires
        0 <= i < j < s.len(),
    ensures
        by_offset(s).len() == s.len(),
        by_offset(s)[i].offset <= by_offset(s)[j].offset,
        s[i].offset <= s[j].offset && s.len() == 2 ==> by_offset(s) == s,
        s[i].offset > s[j].offset && s.len() == 2 ==> by_offset(s) == seq![s[1], s[0]],
{
    law_by_offset(s);
    if s.len() == 2 {
        reveal_with_fuel(by_offset, 3);
        reveal_with_fuel(inserted, 3);
        let front = s.drop_last();
        assert(front =~= seq![s[0]]);
        assert(front.drop_last() =~= Seq::<BlockFieldModel>::empty());
        assert(by_offset(front) =~= seq![s[0]]);
        assert(by_offset(s) =~= if s[0].offset <= s[1].offset {
            s
        } else {
            seq![s[1], s[0]]
        });
    }
}

} // verus!
