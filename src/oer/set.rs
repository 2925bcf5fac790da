//! Sets: each field is encoded on its own and the encodings are written in
//! canonical tag order (universal, application, context, private; then by
//! number), whatever order the fields were given in.
use super::enc::Encoder;
use crate::error::EncodeError;
use crate::tag::{class_bits, class_index, Tag};
use vstd::prelude::*;

verus! {

/// Where a tag stands in canonical order.
pub open spec fn tag_key(t: Tag) -> int {
    class_bits(t.class) * 0x1_0000_0000 + t.value
}

/// No two fields share a tag.
pub open spec fn tags_distinct(fields: Seq<(Tag, Vec<u8>)>) -> bool {
    forall|a: int, b: int|
        0 <= a < b < fields.len() ==> tag_key(#[trigger] fields[a].0) != tag_key(#[trigger] fields[b].0)
}

/// `order` lists every field once, by increasing tag.
pub open spec fn is_tag_order(fields: Seq<(Tag, Vec<u8>)>, order: Seq<int>) -> bool {
    &&& order.len() == fields.len()
    &&& forall|k: int| 0 <= k < order.len() ==> 0 <= #[trigger] order[k] < fields.len()
    &&& forall|k: int, l: int|
        0 <= k < l < order.len() ==> tag_key(fields[#[trigger] order[k]].0) < tag_key(
            fields[#[trigger] order[l]].0,
        )
}

/// Byte strings one after another.
pub open spec fn join(parts: Seq<Seq<u8>>) -> Seq<u8>
    decreases parts.len(),
{
    if parts.len() == 0 {
        Seq::empty()
    } else {
        join(parts.drop_last()) + parts.last()
    }
}

/// The fields' encodings taken in `order`.
pub open spec fn parts_in_order(fields: Seq<(Tag, Vec<u8>)>, order: Seq<int>) -> Seq<Seq<u8>> {
    order.map_values(|i: int| fields[i].1@)
}

fn tag_key_exec(t: Tag) -> (r: u64)
    ensures
        r == tag_key(t),
{
    class_index(t.class) as u64 * 0x1_0000_0000 + t.value as u64
}

impl Encoder {
    /// Writes a set whose fields, each with its tag, are already encoded: the
    /// encodings in canonical tag order. Two fields with one tag are refused.
    pub fn encode_set(&mut self, fields: &Vec<(Tag, Vec<u8>)>) -> (r: Result<(), EncodeError>)
        ensures
            r.is_ok() == tags_distinct(fields@),
            r.is_ok() ==> exists|order: Seq<int>|
                is_tag_order(fields@, order) && final(self)@ == old(self)@ + join(
                    parts_in_order(fields@, order),
                ),
            r.is_err() ==> final(self)@ == old(self)@ && r == Err::<(), EncodeError>(
                EncodeError::DuplicateSetTag,
            ),
    {
        let n = fields.len();
        let mut a: usize = 0;
        while a < n
            invariant
                n == fields@.len(),
                a <= n,
                forall|x: int, y: int|
                    0 <= x < y < n && x < a ==> tag_key(#[trigger] fields@[x].0) != tag_key(
                        #[trigger] fields@[y].0,
                    ),
            decreases n - a,
        {
            let ka = tag_key_exec(fields[a].0);
            let mut b: usize = a + 1;
            while b < n
                invariant
                    n == fields@.len(),
                    a < n,
                    a + 1 <= b <= n,
                    ka == tag_key(fields@[a as int].0),
                    forall|x: int, y: int|
                        0 <= x < y < n && x < a ==> tag_key(#[trigger] fields@[x].0) != tag_key(
                            #[trigger] fields@[y].0,
                        ),
                    forall|y: int| a < y < b ==> ka != tag_key(#[trigger] fields@[y].0),
                decreases n - b,
            {
                if tag_key_exec(fields[b].0) == ka {
                    return Err(EncodeError::DuplicateSetTag);
                }
                b = b + 1;
            }
            a = a + 1;
        }
        // indices of the fields seen so far, by increasing tag
        let mut idx: Vec<usize> = Vec::new();
        let mut i: usize = 0;
        while i < n
            invariant
                n == fields@.len(),
                tags_distinct(fields@),
                i <= n,
                idx@.len() == i,
                forall|k: int| 0 <= k < idx@.len() ==> #[trigger] idx@[k] < i,
                forall|k: int, l: int|
                    0 <= k < l < idx@.len() ==> tag_key(fields@[#[trigger] idx@[k] as int].0)
                        < tag_key(fields@[#[trigger] idx@[l] as int].0),
            decreases n - i,
        {
            let ki = tag_key_exec(fields[i].0);
            let mut p: usize = 0;
            while p < idx.len() && tag_key_exec(fields[idx[p]].0) < ki
                invariant
                    n == fields@.len(),
                    i < n,
                    idx@.len() == i,
                    forall|k: int| 0 <= k < idx@.len() ==> #[trigger] idx@[k] < i,
                    p <= idx@.len(),
                    ki == tag_key(fields@[i as int].0),
                    forall|k: int| 0 <= k < p ==> tag_key(fields@[#[trigger] idx@[k] as int].0) < ki,
                decreases idx@.len() - p,
            {
                p = p + 1;
            }
            proof {
                assert forall|k: int| 0 <= k < idx@.len() implies tag_key(
                    fields@[#[trigger] idx@[k] as int].0,
                ) != ki by {
                    let j = idx@[k] as int;
                    assert(j < i);
                    assert(tag_key(fields@[j].0) != tag_key(fields@[i as int].0));
                }
                if p < idx@.len() {
                    assert(tag_key(fields@[idx@[p as int] as int].0) > ki);
                }
            }
            let ghost before = idx@;
            idx.insert(p, i);
            proof {
                assert forall|k: int, l: int|
                    0 <= k < l < idx@.len() implies tag_key(fields@[#[trigger] idx@[k] as int].0)
                    < tag_key(fields@[#[trigger] idx@[l] as int].0) by {
                    if p < before.len() {
                        assert(tag_key(fields@[before[p as int] as int].0) > ki);
                    }
                    if k < p && l > p {
                        assert(idx@[l] == before[l - 1]);
                        if l - 1 >= p {
                            if (l - 1) as int > p as int {
                                assert(tag_key(fields@[before[p as int] as int].0) < tag_key(
                                    fields@[before[l - 1] as int].0,
                                ));
                            }
                        }
                    }
                    if k == p && l > p {
                        assert(idx@[l] == before[l - 1]);
                        if (l - 1) as int > p as int {
                            assert(tag_key(fields@[before[p as int] as int].0) < tag_key(
                                fields@[before[l - 1] as int].0,
                            ));
                        }
                    }
                    if k > p {
                        assert(idx@[k] == before[k - 1]);
                        assert(idx@[l] == before[l - 1]);
                    }
                }
            }
            i = i + 1;
        }
        let ghost order = idx@.map_values(|j: usize| j as int);
        let mut k: usize = 0;
        let ghost start = self@;
        proof {
            assert(order.subrange(0, 0).len() == 0);
            assert(parts_in_order(fields@, order.subrange(0, 0)) =~= Seq::<Seq<u8>>::empty());
            assert(self@ =~= start + join(parts_in_order(fields@, order.subrange(0, 0))));
        }
        while k < n
            invariant
                n == fields@.len(),
                idx@.len() == n,
                forall|m: int| 0 <= m < idx@.len() ==> #[trigger] idx@[m] < n,
                order == idx@.map_values(|j: usize| j as int),
                k <= n,
                self@ == start + join(parts_in_order(fields@, order.subrange(0, k as int))),
            decreases n - k,
        {
            let part = &fields[idx[k]].1;
            proof {
                let pre = parts_in_order(fields@, order.subrange(0, k as int + 1));
                assert(pre.drop_last() =~= parts_in_order(fields@, order.subrange(0, k as int)));
                assert(pre.last() == part@);
            }
            self.write_bytes(part.as_slice());
            k = k + 1;
        }
        proof {
            assert(order.subrange(0, n as int) =~= order);
            assert(is_tag_order(fields@, order));
        }
        Ok(())
    }
}

} // verus!
