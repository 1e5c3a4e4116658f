//! The block decoder: canonical Huffman trees built from code-length
//! vectors, and the three block forms (stored, fixed code table, dynamic
//! code table) with back-reference expansion into the output.

pub mod lookup;

use vstd::arithmetic::power2::pow2;
use vstd::prelude::*;

use crate::bitreader::BitReader;
use crate::bitreader::bit_at;
use crate::bitreader::lemma_bit_at_bound;
use crate::zlib_errors::InflateError;

verus! {

/// A binary code tree: a leaf carries a symbol, a branch has an optional
/// subtree on each side (0 descends left, 1 right).
pub enum TreeNode {
    Branch(Option<Box<TreeNode>>, Option<Box<TreeNode>>),
    Leaf(u16),
}

impl Default for TreeNode {
    /// The empty tree: a branch with both sides free.
    fn default() -> (r: TreeNode)
        ensures
            r == TreeNode::Branch(None, None),
    {
        TreeNode::Branch(None, None)
    }
}

/// The tree behind an optional child; a missing child stands for an empty
/// branch that insertion may create.
pub open spec fn child_tree(c: Option<Box<TreeNode>>) -> TreeNode {
    match c {
        Some(b) => *b,
        None => TreeNode::Branch(None, None),
    }
}

/// Inserts a leaf for `value` at depth `len`, taking the leftmost free slot:
/// the result is the new tree, the code assigned (bit `i` of the code is the
/// direction taken at depth `i`), and whether a slot was found. On failure
/// the tree comes back unchanged.
pub open spec fn spec_insert(t: TreeNode, value: u16, len: nat) -> (TreeNode, nat, bool)
    decreases len,
{
    match t {
        TreeNode::Leaf(_) => (t, 0, false),
        TreeNode::Branch(l, r) => {
            if len == 0 {
                (t, 0, false)
            } else if len == 1 {
                if l is None {
                    (TreeNode::Branch(Some(Box::new(TreeNode::Leaf(value))), r), 0, true)
                } else if r is None {
                    (TreeNode::Branch(l, Some(Box::new(TreeNode::Leaf(value)))), 1, true)
                } else {
                    (t, 0, false)
                }
            } else {
                let lres = spec_insert(child_tree(l), value, (len - 1) as nat);
                if lres.2 {
                    (TreeNode::Branch(Some(Box::new(lres.0)), r), lres.1 * 2, true)
                } else {
                    let rres = spec_insert(child_tree(r), value, (len - 1) as nat);
                    if rres.2 {
                        (
                            TreeNode::Branch(l, Some(Box::new(rres.0))),
                            (rres.1 * 2 + 1) as nat,
                            true,
                        )
                    } else {
                        (t, 0, false)
                    }
                }
            }
        },
    }
}

/// A failed insertion leaves the tree as it was.
pub proof fn lemma_insert_fail_unchanged(t: TreeNode, value: u16, len: nat)
    requires
        !spec_insert(t, value, len).2,
    ensures
        spec_insert(t, value, len).0 == t,
    decreases len,
{
}

/// Inserting into an empty branch always finds a slot.
pub proof fn lemma_insert_empty_succeeds(value: u16, len: nat)
    requires
        len >= 1,
    ensures
        spec_insert(TreeNode::Branch(None, None), value, len).2,
    decreases len,
{
    if len > 1 {
        lemma_insert_empty_succeeds(value, (len - 1) as nat);
    }
}

/// The assigned code has one bit per level of depth.
pub proof fn lemma_insert_code_bound(t: TreeNode, value: u16, len: nat)
    ensures
        spec_insert(t, value, len).1 < pow2(len),
    decreases len,
{
    vstd::arithmetic::power2::lemma2_to64();
    vstd::arithmetic::power2::lemma_pow2_pos(len);
    match t {
        TreeNode::Leaf(_) => {},
        TreeNode::Branch(l, r) => {
            if len > 1 {
                vstd::arithmetic::power2::lemma_pow2_unfold(len);
                lemma_insert_code_bound(child_tree(l), value, (len - 1) as nat);
                lemma_insert_code_bound(child_tree(r), value, (len - 1) as nat);
            }
        },
    }
}

/// Descends the tree along the bits of the buffer starting at `pos`: 0 goes
/// left, 1 right, until a leaf's symbol is returned together with the first
/// position past the bits consumed.
pub open spec fn spec_decode_symbol(t: TreeNode, data: Seq<u8>, pos: nat) -> Result<
    (u16, nat),
    InflateError,
>
    decreases t,
{
    match t {
        TreeNode::Leaf(v) => Ok((v, pos)),
        TreeNode::Branch(l, r) => {
            if pos >= data.len() * 8 {
                Err(InflateError::UnexpectedEof)
            } else {
                let c = if bit_at(data, pos) == 0 {
                    l
                } else {
                    r
                };
                match c {
                    Some(b) => spec_decode_symbol(*b, data, pos + 1),
                    None => Err(InflateError::InvalidHuffmanCode),
                }
            }
        },
    }
}

/// A successful descent from a branch consumes at least one bit and never
/// runs past the buffer.
pub proof fn lemma_decode_symbol_advances(t: TreeNode, data: Seq<u8>, pos: nat)
    ensures
        spec_decode_symbol(t, data, pos) matches Ok(res) ==> pos <= res.1,
        t is Branch ==> (spec_decode_symbol(t, data, pos) matches Ok(res) ==> pos < res.1
            <= data.len() * 8),
    decreases t,
{
    match t {
        TreeNode::Leaf(_) => {},
        TreeNode::Branch(l, r) => {
            if pos < data.len() * 8 {
                let c = if bit_at(data, pos) == 0 {
                    l
                } else {
                    r
                };
                match c {
                    Some(b) => lemma_decode_symbol_advances(*b, data, pos + 1),
                    None => {},
                }
            }
        },
    }
}

/// Inserts every pair of `s` in order; `Err` as soon as one finds no slot.
pub open spec fn spec_insert_seq(t: TreeNode, s: Seq<(u16, u8)>) -> Result<
    TreeNode,
    InflateError,
>
    decreases s.len(),
{
    if s.len() == 0 {
        Ok(t)
    } else {
        let e = spec_insert(t, s[0].0, s[0].1 as nat);
        if e.2 {
            spec_insert_seq(e.0, s.drop_first())
        } else {
            Err(InflateError::OversubscribedCode)
        }
    }
}

/// The pairs of `s` whose length is exactly `l`, in their original order.
pub open spec fn spec_with_len(s: Seq<(u16, u8)>, l: u8) -> Seq<(u16, u8)>
    decreases s.len(),
{
    if s.len() == 0 {
        Seq::empty()
    } else {
        spec_with_len(s.drop_last(), l) + if s.last().1 == l {
            seq![s.last()]
        } else {
            Seq::empty()
        }
    }
}

/// The pairs of `s` with lengths 1 through `l`, stably ordered by length
/// first and original position second.
pub open spec fn spec_concat_levels(s: Seq<(u16, u8)>, l: nat) -> Seq<(u16, u8)>
    decreases l,
{
    if l == 0 {
        Seq::empty()
    } else {
        spec_concat_levels(s, (l - 1) as nat) + spec_with_len(s, l as u8)
    }
}

/// The tree the canonical construction yields from the code-length pairs
/// `s`: pairs sorted stably by length ascending (zero lengths left out),
/// each inserted at the leftmost free slot of its depth.
pub open spec fn spec_build_tree(s: Seq<(u16, u8)>) -> Result<TreeNode, InflateError> {
    spec_insert_seq(TreeNode::Branch(None, None), spec_concat_levels(s, 15))
}

/// A sequence of insertions into a branch keeps the root a branch.
pub proof fn lemma_insert_keeps_branch(t: TreeNode, value: u16, len: nat)
    ensures
        t is Branch ==> spec_insert(t, value, len).0 is Branch,
    decreases len,
{
}

/// A built tree always has a branch at the root.
pub proof fn lemma_insert_seq_branch(t: TreeNode, s: Seq<(u16, u8)>)
    ensures
        t is Branch ==> (spec_insert_seq(t, s) matches Ok(t2) ==> t2 is Branch),
    decreases s.len(),
{
    if s.len() > 0 {
        let e = spec_insert(t, s[0].0, s[0].1 as nat);
        if e.2 {
            lemma_insert_keeps_branch(t, s[0].0, s[0].1 as nat);
            lemma_insert_seq_branch(e.0, s.drop_first());
        }
    }
}

impl TreeNode {
    /// Builds the canonical tree for the code-length pairs `arr`: pairs are
    /// taken in order of length (ties by position), each placed at the
    /// leftmost free slot of its depth; a pair of length zero is skipped.
    pub fn new(arr: &Vec<(u16, u8)>) -> (r: Result<TreeNode, InflateError>)
        requires
            forall|i: int| 0 <= i < arr@.len() ==> (#[trigger] arr@[i]).1 <= 15,
        ensures
            r == spec_build_tree(arr@),
    {
        let mut sorted: Vec<(u16, u8)> = Vec::new();
        let mut l: u8 = 1;
        proof {
            assert(sorted@ =~= spec_concat_levels(arr@, 0));
        }
        while l <= 15
            invariant
                1 <= l <= 16,
                sorted@ == spec_concat_levels(arr@, (l - 1) as nat),
                forall|i: int| 0 <= i < sorted@.len() ==> 1 <= (#[trigger] sorted@[i]).1 <= 15,
            decreases 16 - l,
        {
            let mut j: usize = 0;
            proof {
                assert(arr@.take(0) =~= Seq::<(u16, u8)>::empty());
                assert(sorted@ =~= spec_concat_levels(arr@, (l - 1) as nat) + spec_with_len(
                    arr@.take(0),
                    l,
                ));
            }
            while j < arr.len()
                invariant
                    j <= arr@.len(),
                    1 <= l <= 15,
                    sorted@ == spec_concat_levels(arr@, (l - 1) as nat) + spec_with_len(
                        arr@.take(j as int),
                        l,
                    ),
                    forall|i: int| 0 <= i < sorted@.len() ==> 1 <= (#[trigger] sorted@[i]).1 <= 15,
                decreases arr@.len() - j,
            {
                let p = arr[j];
                proof {
                    assert(arr@.take(j as int + 1).drop_last() =~= arr@.take(j as int));
                    assert(arr@.take(j as int + 1).last() == arr@[j as int]);
                }
                if p.1 == l {
                    sorted.push(p);
                    proof {
                        assert(sorted@ =~= spec_concat_levels(arr@, (l - 1) as nat)
                            + spec_with_len(arr@.take(j as int + 1), l));
                    }
                } else {
                    proof {
                        assert(sorted@ =~= spec_concat_levels(arr@, (l - 1) as nat)
                            + spec_with_len(arr@.take(j as int + 1), l));
                    }
                }
                j = j + 1;
            }
            proof {
                assert(arr@.take(arr@.len() as int) =~= arr@);
            }
            l = l + 1;
        }
        let ghost sseq = sorted@;
        proof {
            assert(sseq == spec_concat_levels(arr@, 15));
            assert(sseq.skip(0) =~= sseq);
        }
        let mut tree = TreeNode::Branch(None, None);
        let mut k: usize = 0;
        while k < sorted.len()
            invariant
                k <= sseq.len(),
                sorted@ == sseq,
                tree is Branch,
                spec_insert_seq(tree, sseq.skip(k as int)) == spec_insert_seq(
                    TreeNode::Branch(None, None),
                    sseq,
                ),
            decreases sseq.len() - k,
        {
            let p = sorted[k];
            proof {
                assert(sseq.skip(k as int)[0] == sseq[k as int]);
                assert(sseq.skip(k as int).drop_first() =~= sseq.skip(k as int + 1));
                lemma_insert_keeps_branch(tree, p.0, p.1 as nat);
            }
            match tree.start_insert(p.0, p.1) {
                Ok(_) => {},
                Err(e) => {
                    return Err(e);
                },
            }
            k = k + 1;
        }
        Ok(tree)
    }

    /// Places `value` at depth `len`; `Ok` carries the code assigned. A pair
    /// of length zero is never inserted. `Err` when every slot at that depth
    /// is taken, the tree then unchanged.
    pub fn start_insert(&mut self, value: u16, len: u8) -> (r: Result<u32, InflateError>)
        requires
            len <= 15,
        ensures
            len == 0 ==> *final(self) == *old(self) && r == Ok::<u32, InflateError>(0),
            len >= 1 && spec_insert(*old(self), value, len as nat).2 ==> *final(self)
                == spec_insert(*old(self), value, len as nat).0 && r == Ok::<u32, InflateError>(
                spec_insert(*old(self), value, len as nat).1 as u32,
            ),
            len >= 1 && !spec_insert(*old(self), value, len as nat).2 ==> *final(self) == *old(
                self,
            ) && r == Err::<u32, InflateError>(InflateError::OversubscribedCode),
    {
        if len == 0 {
            return Ok(0);
        }
        let mut t = TreeNode::Branch(None, None);
        core::mem::swap(self, &mut t);
        let (t2, code, ok) = t.insert(value, len);
        *self = t2;
        if ok {
            Ok(code)
        } else {
            proof {
                lemma_insert_fail_unchanged(*old(self), value, len as nat);
            }
            Err(InflateError::OversubscribedCode)
        }
    }

    /// Inserts a leaf for `value` at depth `len`, leftmost slot first; the
    /// flag says whether a slot was found, and the code assigned comes back
    /// with it.
    fn insert(self, value: u16, len: u8) -> (res: (TreeNode, u32, bool))
        requires
            1 <= len <= 15,
        ensures
            res.0 == spec_insert(self, value, len as nat).0,
            res.1 == spec_insert(self, value, len as nat).1,
            res.2 == spec_insert(self, value, len as nat).2,
        decreases len, 1int,
    {
        proof {
            lemma_insert_code_bound(self, value, len as nat);
            vstd::arithmetic::power2::lemma2_to64();
            if (len as nat) < 16 {
                vstd::arithmetic::power2::lemma_pow2_strictly_increases(len as nat, 16);
            }
        }
        match self {
            TreeNode::Leaf(v) => (TreeNode::Leaf(v), 0, false),
            TreeNode::Branch(left, right) => {
                if len == 1 {
                    if left.is_none() {
                        (
                            TreeNode::Branch(Some(Box::new(TreeNode::Leaf(value))), right),
                            0,
                            true,
                        )
                    } else if right.is_none() {
                        (
                            TreeNode::Branch(left, Some(Box::new(TreeNode::Leaf(value)))),
                            1,
                            true,
                        )
                    } else {
                        (TreeNode::Branch(left, right), 0, false)
                    }
                } else {
                    proof {
                        lemma_insert_code_bound(child_tree(left), value, (len - 1) as nat);
                        lemma_insert_code_bound(child_tree(right), value, (len - 1) as nat);
                        vstd::arithmetic::power2::lemma_pow2_strictly_increases(
                            (len - 1) as nat,
                            15,
                        );
                    }
                    let (l2, c, ok) = Self::test(left, value, len);
                    if ok {
                        (TreeNode::Branch(Some(Box::new(l2)), right), c * 2, true)
                    } else {
                        proof {
                            lemma_insert_empty_succeeds(value, (len - 1) as nat);
                            lemma_insert_fail_unchanged(child_tree(left), value, (len - 1) as nat);
                        }
                        let (r2, c2, ok2) = Self::test(right, value, len);
                        if ok2 {
                            (
                                TreeNode::Branch(Some(Box::new(l2)), Some(Box::new(r2))),
                                c2 * 2 + 1,
                                true,
                            )
                        } else {
                            proof {
                                lemma_insert_fail_unchanged(
                                    child_tree(right),
                                    value,
                                    (len - 1) as nat,
                                );
                            }
                            (TreeNode::Branch(Some(Box::new(l2)), Some(Box::new(r2))), 0, false)
                        }
                    }
                }
            },
        }
    }

    /// Descends one level into `dest` (creating an empty branch where the
    /// child is missing) and inserts at depth `len - 1` there.
    fn test(dest: Option<Box<TreeNode>>, value: u16, len: u8) -> (res: (TreeNode, u32, bool))
        requires
            2 <= len <= 15,
        ensures
            res.0 == spec_insert(child_tree(dest), value, (len - 1) as nat).0,
            res.1 == spec_insert(child_tree(dest), value, (len - 1) as nat).1,
            res.2 == spec_insert(child_tree(dest), value, (len - 1) as nat).2,
        decreases len, 0int,
    {
        match dest {
            Some(t) => (*t).insert(value, len - 1),
            None => TreeNode::Branch(None, None).insert(value, len - 1),
        }
    }

    /// Reads bits from `br`, descending left on 0 and right on 1, until a
    /// leaf is reached; returns its symbol. Fails on a missing child or when
    /// the bits run out.
    pub fn get_value(&self, br: &mut BitReader) -> (r: Result<u16, InflateError>)
        requires
            old(br).wf(),
        ensures
            final(br).wf(),
            final(br).buf() == old(br).buf(),
            match spec_decode_symbol(*self, old(br).buf(), old(br).pos()) {
                Ok(res) => r == Ok::<u16, InflateError>(res.0) && final(br).pos() == res.1,
                Err(e) => r == Err::<u16, InflateError>(e) && old(br).pos() <= final(br).pos()
                    <= old(br).total_bits(),
            },
        decreases self,
    {
        proof {
            old(br).lemma_pos_in_bounds();
        }
        match self {
            TreeNode::Leaf(value) => Ok(*value),
            TreeNode::Branch(left, right) => {
                let b = match br.read_bit() {
                    Ok(b) => b,
                    Err(e) => {
                        return Err(e);
                    },
                };
                let branch = if b == 0 {
                    left
                } else {
                    right
                };
                match branch {
                    Some(t) => t.get_value(br),
                    None => Err(InflateError::InvalidHuffmanCode),
                }
            },
        }
    }
}


/// The symbol of the fixed literal/length code at `pos`: seven bits first,
/// one or two more as the value dictates.
pub open spec fn spec_fixed_symbol(data: Seq<u8>, pos: nat) -> Result<(u16, nat), InflateError> {
    match crate::bitreader::spec_take_msb(data, pos, 7) {
        Err(e) => Err(e),
        Ok((r7, p7)) => {
            if r7 == 0 {
                Ok((256, p7))
            } else if r7 < 0x18 {
                Ok(((r7 + 256) as u16, p7))
            } else {
                match crate::bitreader::spec_take_msb(data, pos, 8) {
                    Err(e) => Err(e),
                    Ok((r8, p8)) => {
                        if r8 < 0xC0 {
                            Ok(((r8 - 0x30) as u16, p8))
                        } else if r8 < 0xC8 {
                            Ok(((r8 - 0xC0 + 280) as u16, p8))
                        } else {
                            match crate::bitreader::spec_take_msb(data, pos, 9) {
                                Err(e) => Err(e),
                                Ok((r9, p9)) => Ok(((r9 - 0x190 + 144) as u16, p9)),
                            }
                        }
                    },
                }
            }
        },
    }
}

/// Turns a length symbol into the back-reference length: table base plus
/// MSB-first extra bits. Symbols past 285 have no entry.
pub open spec fn spec_length_of(sym: u16, data: Seq<u8>, pos: nat) -> Result<
    (u16, nat),
    InflateError,
> {
    if sym > 285 {
        Err(InflateError::LengthCodeOutOfRange)
    } else {
        let ent = lookup::spec_length_entry(sym as nat);
        match crate::bitreader::spec_take_msb(data, pos, ent.1 as nat) {
            Err(e) => Err(e),
            Ok((x, p)) => Ok(((ent.0 + x) as u16, p)),
        }
    }
}

/// Turns a distance symbol into the back-reference distance: table base plus
/// MSB-first extra bits. Symbols past 29 are outside the table.
pub open spec fn spec_dist_of(sym: u16, data: Seq<u8>, pos: nat) -> Result<
    (u16, nat),
    InflateError,
> {
    if sym > 29 {
        Err(InflateError::DistanceOutOfRange)
    } else {
        let ent = lookup::spec_dist_entry(sym as nat);
        match crate::bitreader::spec_take_msb(data, pos, ent.1 as nat) {
            Err(e) => Err(e),
            Ok((x, p)) => Ok(((ent.0 + x) as u16, p)),
        }
    }
}

/// Appends `len` bytes, each copied from `dist` places before the end of the
/// buffer as it grows; a copy longer than the distance re-reads bytes it has
/// just written.
pub open spec fn spec_backref(out: Seq<u8>, dist: nat, len: nat) -> Seq<u8>
    decreases len,
{
    if len == 0 || dist == 0 || dist > out.len() {
        out
    } else {
        spec_backref(out.push(out[(out.len() - dist) as int]), dist, (len - 1) as nat)
    }
}

/// The run of a fixed-code block from `pos`: literals are appended, 256
/// stops, length symbols are followed by a five-bit LSB-packed distance
/// symbol and a back-reference copy. The result is the position after the
/// end-of-block symbol and the grown output.
pub open spec fn spec_run01(data: Seq<u8>, pos: nat, out: Seq<u8>) -> Result<
    (nat, Seq<u8>),
    InflateError,
>
    decreases 8 * data.len() - pos,
{
    match spec_fixed_symbol(data, pos) {
        Err(e) => Err(e),
        Ok((sym, p1)) => {
            if sym == 256 {
                Ok((p1, out))
            } else if sym < 256 {
                spec_run01(data, p1, out.push(sym as u8))
            } else {
                match spec_length_of(sym, data, p1) {
                    Err(e) => Err(e),
                    Ok((length, p2)) => match crate::bitreader::spec_take_lsb(data, p2, 5) {
                        Err(e) => Err(e),
                        Ok((dcode, p3)) => match spec_dist_of(dcode as u16, data, p3) {
                            Err(e) => Err(e),
                            Ok((dist, p4)) => {
                                if dist > out.len() {
                                    Err(InflateError::DistanceOutOfRange)
                                } else {
                                    spec_run01(data, p4, spec_backref(out, dist as nat, length as nat))
                                }
                            },
                        },
                    },
                }
            }
        },
    }
}

/// A stored block at `pos`: align, two little-endian byte pairs LEN and
/// NLEN, the complement check, then LEN raw bytes copied to the output.
pub open spec fn spec_method00(data: Seq<u8>, pos: nat, out: Seq<u8>) -> Result<
    (nat, Seq<u8>),
    InflateError,
> {
    let a = crate::bitreader::align8(pos);
    let idx = a / 8;
    if idx + 4 > data.len() {
        Err(InflateError::UnexpectedEof)
    } else {
        let len16 = (data[idx as int] + data[idx as int + 1] * 0x100) as u16;
        let nlen16 = (data[idx as int + 2] + data[idx as int + 3] * 0x100) as u16;
        if len16 + nlen16 != 0xFFFF {
            Err(InflateError::FailedNLenCheck)
        } else if idx + 4 + len16 > data.len() {
            Err(InflateError::UnexpectedEof)
        } else {
            Ok(
                (
                    (8 * (idx + 4 + len16)) as nat,
                    out + data.subrange(idx as int + 4, idx as int + 4 + len16 as int),
                ),
            )
        }
    }
}

/// `pow2` is monotone.
proof fn lemma_pow2_le(a: nat, b: nat)
    requires
        a <= b,
    ensures
        pow2(a) <= pow2(b),
{
    if a < b {
        vstd::arithmetic::power2::lemma_pow2_strictly_increases(a, b);
    }
}

/// Appends `len` bytes to `out`, each read `dist` places before the current
/// end, so a copy longer than its distance repeats what it just wrote.
fn copy_backref(out: &mut Vec<u8>, dist: usize, len: usize)
    requires
        1 <= dist <= old(out).len(),
    ensures
        final(out)@ == spec_backref(old(out)@, dist as nat, len as nat),
{
    let mut i: usize = 0;
    while i < len
        invariant
            1 <= dist <= out@.len(),
            i <= len,
            spec_backref(out@, dist as nat, (len - i) as nat) == spec_backref(
                old(out)@,
                dist as nat,
                len as nat,
            ),
        decreases len - i,
    {
        let idx = out.len() - dist;
        let v = out[idx];
        out.push(v);
        i = i + 1;
    }
}

/// Reads one symbol of the fixed literal/length code.
fn fixed_symbol(br: &mut BitReader) -> (r: Result<u16, InflateError>)
    requires
        old(br).wf(),
    ensures
        final(br).wf(),
        final(br).buf() == old(br).buf(),
        match spec_fixed_symbol(old(br).buf(), old(br).pos()) {
            Ok(res) => r == Ok::<u16, InflateError>(res.0) && final(br).pos() == res.1,
            Err(e) => r == Err::<u16, InflateError>(e) && old(br).pos() <= final(br).pos()
                <= old(br).total_bits(),
        },
{
    proof {
        old(br).lemma_pos_in_bounds();
        vstd::arithmetic::power2::lemma2_to64();
        crate::bitreader::lemma_bits_msb_bound(old(br).buf(), old(br).pos(), 7);
    }
    let r7 = match br.read_bits(7) {
        Ok(v) => v,
        Err(e) => {
            return Err(e);
        },
    };
    if r7 == 0 {
        return Ok(256);
    }
    if r7 < 0x18 {
        return Ok(r7 + 256);
    }
    let b = match br.read_bit() {
        Ok(v) => v,
        Err(e) => {
            return Err(e);
        },
    };
    let r8 = r7 * 2 + (b as u16);
    proof {
        crate::bitreader::lemma_bit_at_bound(old(br).buf(), old(br).pos() + 7);
    }
    if r8 < 0xC0 {
        return Ok(r8 - 0x30);
    }
    if r8 < 0xC8 {
        return Ok(r8 - 0xC0 + 280);
    }
    let b2 = match br.read_bit() {
        Ok(v) => v,
        Err(e) => {
            return Err(e);
        },
    };
    proof {
        crate::bitreader::lemma_bit_at_bound(old(br).buf(), old(br).pos() + 8);
    }
    let r9 = r8 * 2 + (b2 as u16);
    Ok(r9 - 0x190 + 144)
}

/// Decodes a stored block: aligns to a byte, checks LEN against NLEN, and
/// copies LEN raw bytes to the output.
fn inflate_method00(out_buffer: &mut Vec<u8>, br: &mut BitReader) -> (r: Result<(), InflateError>)
    requires
        old(br).wf(),
    ensures
        final(br).wf(),
        final(br).buf() == old(br).buf(),
        match spec_method00(old(br).buf(), old(br).pos(), old(out_buffer)@) {
            Ok(res) => r == Ok::<(), InflateError>(()) && final(br).pos() == res.0
                && final(out_buffer)@ == res.1,
            Err(e) => r == Err::<(), InflateError>(e) && final(out_buffer)@ == old(out_buffer)@,
        },
{
    proof {
        old(br).lemma_pos_in_bounds();
        crate::bitreader::lemma_align8(old(br).pos());
        crate::bitreader::lemma_align8_in_bounds(old(br).pos(), old(br).buf().len());
    }
    br.discard_bits();
    let ghost a = crate::bitreader::align8(old(br).pos());
    let ghost idx = a / 8;
    let ghost dlen = old(br).buf().len();
    proof {
        assert(a == 8 * idx);
        assert(a + 16 <= dlen * 8 <==> idx + 2 <= dlen) by (nonlinear_arith)
            requires
                a == 8 * idx,
        ;
        assert((8 * idx + 16) / 8 == idx + 2) by (nonlinear_arith);
        assert((8 * idx + 16) % 8 == 0) by (nonlinear_arith);
    }
    let len = match br.read_u16_lsb() {
        Ok(v) => v,
        Err(e) => {
            return Err(e);
        },
    };
    proof {
        assert(a + 32 <= dlen * 8 <==> idx + 4 <= dlen) by (nonlinear_arith)
            requires
                a == 8 * idx,
        ;
    }
    let nlen = match br.read_u16_lsb() {
        Ok(v) => v,
        Err(e) => {
            return Err(e);
        },
    };
    proof {
        assert((len == !nlen) <==> (len as int + nlen as int == 0xFFFF)) by (bit_vector);
    }
    if len != !nlen {
        return Err(InflateError::FailedNLenCheck);
    }
    proof {
        assert(a + 32 + (len as nat) * 8 <= dlen * 8 <==> idx + 4 + len <= dlen)
            by (nonlinear_arith)
            requires
                a == 8 * idx,
        ;
    }
    match br.copy_to(out_buffer, len as usize) {
        Ok(_) => {},
        Err(e) => {
            return Err(e);
        },
    }
    proof {
        assert((a + 32) / 8 == idx + 4) by (nonlinear_arith)
            requires
                a == 8 * idx,
        ;
        assert(br.pos() == 8 * (idx + 4 + len)) by (nonlinear_arith)
            requires
                a == 8 * idx,
                br.pos() == a + 32 + (len as nat) * 8,
        ;
    }
    Ok(())
}

/// Decodes a fixed-code block: symbols come from the built-in code table,
/// distances from a flat five-bit LSB-packed field.
fn inflate_method01(out_buffer: &mut Vec<u8>, br: &mut BitReader) -> (r: Result<(), InflateError>)
    requires
        old(br).wf(),
    ensures
        final(br).wf(),
        final(br).buf() == old(br).buf(),
        old(out_buffer)@.is_prefix_of(final(out_buffer)@),
        match spec_run01(old(br).buf(), old(br).pos(), old(out_buffer)@) {
            Ok(res) => r == Ok::<(), InflateError>(()) && final(br).pos() == res.0
                && final(out_buffer)@ == res.1,
            Err(e) => r == Err::<(), InflateError>(e),
        },
{
    proof {
        old(br).lemma_pos_in_bounds();
    }
    loop
        invariant
            br.wf(),
            br.buf() == old(br).buf(),
            br.pos() <= br.total_bits(),
            old(out_buffer)@.is_prefix_of(out_buffer@),
            spec_run01(br.buf(), br.pos(), out_buffer@) == spec_run01(
                old(br).buf(),
                old(br).pos(),
                old(out_buffer)@,
            ),
        decreases br.total_bits() - br.pos(),
    {
        let ghost pos_it = br.pos();
        let ghost out_it = out_buffer@;
        let sym = match fixed_symbol(br) {
            Ok(v) => v,
            Err(e) => {
                return Err(e);
            },
        };
        proof {
            br.lemma_pos_in_bounds();
        }
        if sym == 256 {
            return Ok(());
        }
        if sym < 256 {
            out_buffer.push(sym as u8);
            proof {
                assert(out_it.push(sym as u8) =~= out_buffer@);
                assert(old(out_buffer)@.is_prefix_of(out_buffer@));
            }
        } else {
            if sym > 285 {
                return Err(InflateError::LengthCodeOutOfRange);
            }
            let ent = lookup::length_entry(sym);
            proof {
                assert(ent.1 <= 5 && ent.0 <= 258);
                vstd::arithmetic::power2::lemma2_to64();
                crate::bitreader::lemma_bits_msb_bound(br.buf(), br.pos(), ent.1 as nat);
                lemma_pow2_le(ent.1 as nat, 5);
            }
            let extra = match br.read_bits(ent.1) {
                Ok(v) => v,
                Err(e) => {
                    return Err(e);
                },
            };
            let length = ent.0 + extra;
            let dcode = match br.read_bits_lsb(5) {
                Ok(v) => v,
                Err(e) => {
                    return Err(e);
                },
            };
            if dcode > 29 {
                return Err(InflateError::DistanceOutOfRange);
            }
            let dent = lookup::dist_entry(dcode);
            proof {
                assert(dent.1 <= 13 && 1 <= dent.0 <= 24577);
                vstd::arithmetic::power2::lemma2_to64();
                crate::bitreader::lemma_bits_msb_bound(br.buf(), br.pos(), dent.1 as nat);
                lemma_pow2_le(dent.1 as nat, 13);
            }
            let dextra = match br.read_bits(dent.1) {
                Ok(v) => v,
                Err(e) => {
                    return Err(e);
                },
            };
            let dist = dent.0 + dextra;
            if dist as usize > out_buffer.len() {
                return Err(InflateError::DistanceOutOfRange);
            }
            copy_backref(out_buffer, dist as usize, length as usize);
            proof {
                assert(old(out_buffer)@.is_prefix_of(out_buffer@)) by {
                    lemma_backref_prefix(out_it, dist as nat, length as nat);
                }
            }
        }
        proof {
            br.lemma_pos_in_bounds();
        }
    }
}

/// A back-reference copy only appends.
proof fn lemma_backref_prefix(out: Seq<u8>, dist: nat, len: nat)
    ensures
        out.is_prefix_of(spec_backref(out, dist, len)),
    decreases len,
{
    if !(len == 0 || dist == 0 || dist > out.len()) {
        let o2 = out.push(out[(out.len() - dist) as int]);
        lemma_backref_prefix(o2, dist, (len - 1) as nat);
        assert(out.is_prefix_of(o2));
    }
}


/// The 19-entry code-length table as it stands before any length arrives:
/// every symbol paired with length zero.
pub open spec fn spec_init_hclen() -> Seq<(u16, u8)> {
    Seq::new(19, |i: int| (i as u16, 0u8))
}

/// Reads the `n` three-bit code lengths of a dynamic header, each assigned
/// to its symbol in the fixed arrival order; symbols not reached keep zero.
pub open spec fn spec_hclen_fold(
    data: Seq<u8>,
    pos: nat,
    i: nat,
    n: nat,
    table: Seq<(u16, u8)>,
) -> Result<(Seq<(u16, u8)>, nat), InflateError>
    decreases n - i,
{
    if i >= n {
        Ok((table, pos))
    } else {
        match crate::bitreader::spec_take_msb(data, pos, 3) {
            Err(e) => Err(e),
            Ok((val, p)) => {
                let sym = lookup::spec_hclen_order(i);
                spec_hclen_fold(data, p, i + 1, n, table.update(sym as int, (sym, val as u8)))
            },
        }
    }
}

/// `n` consecutive slots starting at `start`, all with code length `l`.
pub open spec fn spec_run_pairs(start: nat, n: nat, l: u8) -> Seq<(u16, u8)> {
    Seq::new(n, |j: int| (((start + j) as u16), l))
}

/// Decodes code lengths for `count` alphabet slots with the code-length
/// tree: a symbol up to 15 is a length, 16 repeats the previous explicit
/// length, 17 and 18 skip runs of zero lengths. A repeat with no previous
/// length, a run past `count`, or a symbol past 18 is malformed.
pub open spec fn spec_read_lengths(
    t: TreeNode,
    data: Seq<u8>,
    pos: nat,
    i: nat,
    count: nat,
    prev: Option<u8>,
    acc: Seq<(u16, u8)>,
) -> Result<(Seq<(u16, u8)>, nat), InflateError>
    decreases 8 * data.len() - pos,
{
    if i >= count {
        Ok((acc, pos))
    } else if !(t is Branch) {
        Err(InflateError::InvalidHuffmanCode)
    } else {
        match spec_decode_symbol(t, data, pos) {
            Err(e) => Err(e),
            Ok((v, p1)) => {
                proof {
                    lemma_decode_symbol_advances(t, data, pos);
                }
                if v <= 15 {
                    spec_read_lengths(
                        t,
                        data,
                        p1,
                        i + 1,
                        count,
                        Some(v as u8),
                        acc.push((i as u16, v as u8)),
                    )
                } else if v == 16 {
                    match prev {
                        None => Err(InflateError::InvalidCodeLengthRun),
                        Some(pl) => match crate::bitreader::spec_take_msb(data, p1, 2) {
                            Err(e) => Err(e),
                            Ok((k, p2)) => {
                                if i + k + 3 > count {
                                    Err(InflateError::InvalidCodeLengthRun)
                                } else {
                                    spec_read_lengths(
                                        t,
                                        data,
                                        p2,
                                        i + k + 3,
                                        count,
                                        prev,
                                        acc + spec_run_pairs(i, (k + 3) as nat, pl),
                                    )
                                }
                            },
                        },
                    }
                } else if v == 17 {
                    match crate::bitreader::spec_take_msb(data, p1, 3) {
                        Err(e) => Err(e),
                        Ok((k, p2)) => {
                            if i + k + 3 > count {
                                Err(InflateError::InvalidCodeLengthRun)
                            } else {
                                spec_read_lengths(t, data, p2, i + k + 3, count, prev, acc)
                            }
                        },
                    }
                } else if v == 18 {
                    match crate::bitreader::spec_take_msb(data, p1, 7) {
                        Err(e) => Err(e),
                        Ok((k, p2)) => {
                            if i + k + 11 > count {
                                Err(InflateError::InvalidCodeLengthRun)
                            } else {
                                spec_read_lengths(t, data, p2, i + k + 11, count, prev, acc)
                            }
                        },
                    }
                } else {
                    Err(InflateError::InvalidCodeLengthRun)
                }
            },
        }
    }
}

/// The code-length pairs of the literal/length alphabet: slots before
/// `nlit`, in order.
pub open spec fn spec_split_lit(s: Seq<(u16, u8)>, nlit: nat) -> Seq<(u16, u8)>
    decreases s.len(),
{
    if s.len() == 0 {
        Seq::empty()
    } else {
        spec_split_lit(s.drop_last(), nlit) + if (s.last().0 as nat) < nlit {
            seq![s.last()]
        } else {
            Seq::empty()
        }
    }
}

/// The code-length pairs of the distance alphabet: slots from `nlit` on,
/// re-based to start at zero.
pub open spec fn spec_split_dist(s: Seq<(u16, u8)>, nlit: nat) -> Seq<(u16, u8)>
    decreases s.len(),
{
    if s.len() == 0 {
        Seq::empty()
    } else {
        spec_split_dist(s.drop_last(), nlit) + if (s.last().0 as nat) >= nlit {
            seq![(((s.last().0 as nat - nlit) as u16), s.last().1)]
        } else {
            Seq::empty()
        }
    }
}

/// The run of a dynamic block's payload: symbols come from the two built
/// trees, literals are appended, 256 stops, and each length symbol is
/// followed by a tree-coded distance symbol and a back-reference copy.
pub open spec fn spec_run10(
    tlit: TreeNode,
    tdist: TreeNode,
    data: Seq<u8>,
    pos: nat,
    out: Seq<u8>,
) -> Result<(nat, Seq<u8>), InflateError>
    decreases 8 * data.len() - pos,
{
    if !(tlit is Branch) || !(tdist is Branch) {
        Err(InflateError::InvalidHuffmanCode)
    } else {
        match spec_decode_symbol(tlit, data, pos) {
            Err(e) => Err(e),
            Ok((sym, p1)) => {
                proof {
                    lemma_decode_symbol_advances(tlit, data, pos);
                }
                if sym == 256 {
                    Ok((p1, out))
                } else if sym < 256 {
                    spec_run10(tlit, tdist, data, p1, out.push(sym as u8))
                } else {
                    match spec_length_of(sym, data, p1) {
                        Err(e) => Err(e),
                        Ok((length, p2)) => match spec_decode_symbol(tdist, data, p2) {
                            Err(e) => Err(e),
                            Ok((dsym, p3)) => {
                                proof {
                                    lemma_decode_symbol_advances(tdist, data, p2);
                                }
                                match spec_dist_of(dsym, data, p3) {
                                    Err(e) => Err(e),
                                    Ok((dist, p4)) => {
                                        if dist > out.len() {
                                            Err(InflateError::DistanceOutOfRange)
                                        } else {
                                            spec_run10(
                                                tlit,
                                                tdist,
                                                data,
                                                p4,
                                                spec_backref(out, dist as nat, length as nat),
                                            )
                                        }
                                    },
                                }
                            },
                        },
                    }
                }
            },
        }
    }
}

/// A dynamic block at `pos`: the three LSB-packed header counts, the
/// code-length code, the combined literal/length and distance code lengths,
/// the two trees, then the payload run.
pub open spec fn spec_method10(data: Seq<u8>, pos: nat, out: Seq<u8>) -> Result<
    (nat, Seq<u8>),
    InflateError,
> {
    match crate::bitreader::spec_take_lsb(data, pos, 5) {
        Err(e) => Err(e),
        Ok((hlit, p1)) => match crate::bitreader::spec_take_lsb(data, p1, 5) {
            Err(e) => Err(e),
            Ok((hdist, p2)) => match crate::bitreader::spec_take_lsb(data, p2, 4) {
                Err(e) => Err(e),
                Ok((hclen, p3)) => match spec_hclen_fold(data, p3, 0, hclen + 4, spec_init_hclen()) {
                    Err(e) => Err(e),
                    Ok((table, p4)) => match spec_build_tree(table) {
                        Err(e) => Err(e),
                        Ok(tcc) => match spec_read_lengths(
                            tcc,
                            data,
                            p4,
                            0,
                            hlit + 257 + hdist + 1,
                            None,
                            Seq::empty(),
                        ) {
                            Err(e) => Err(e),
                            Ok((pairs, p5)) => match spec_build_tree(
                                spec_split_lit(pairs, hlit + 257),
                            ) {
                                Err(e) => Err(e),
                                Ok(tlit) => match spec_build_tree(
                                    spec_split_dist(pairs, hlit + 257),
                                ) {
                                    Err(e) => Err(e),
                                    Ok(tdist) => spec_run10(tlit, tdist, data, p5, out),
                                },
                            },
                        },
                    },
                },
            },
        },
    }
}

/// One block at `pos`: the final-flag bit, the two-bit LSB-packed type, and
/// the block body; the reserved type is refused.
pub open spec fn spec_block(data: Seq<u8>, pos: nat, out: Seq<u8>) -> Result<
    (bool, nat, Seq<u8>),
    InflateError,
> {
    if pos >= data.len() * 8 {
        Err(InflateError::UnexpectedEof)
    } else {
        let bfinal = bit_at(data, pos) != 0;
        match crate::bitreader::spec_take_lsb(data, pos + 1, 2) {
            Err(e) => Err(e),
            Ok((btype, p)) => {
                let step = if btype == 0 {
                    spec_method00(data, p, out)
                } else if btype == 1 {
                    spec_run01(data, p, out)
                } else if btype == 2 {
                    spec_method10(data, p, out)
                } else {
                    Err(InflateError::UnsupportedMethod { method: 3 })
                };
                match step {
                    Err(e) => Err(e),
                    Ok((p2, out2)) => Ok((bfinal, p2, out2)),
                }
            },
        }
    }
}


/// Decodes `count` code lengths with the code-length tree `tree`; returns
/// the (slot, length) pairs in slot order, runs of zeros left implicit.
fn read_code_lengths(tree: &TreeNode, br: &mut BitReader, count: u16) -> (r: Result<
    Vec<(u16, u8)>,
    InflateError,
>)
    requires
        old(br).wf(),
        *tree is Branch,
        count <= 320,
    ensures
        final(br).wf(),
        final(br).buf() == old(br).buf(),
        match spec_read_lengths(
            *tree,
            old(br).buf(),
            old(br).pos(),
            0,
            count as nat,
            None,
            Seq::empty(),
        ) {
            Ok(res) => r matches Ok(v) && v@ == res.0 && final(br).pos() == res.1,
            Err(e) => r == Err::<Vec<(u16, u8)>, InflateError>(e),
        },
        r matches Ok(v) ==> forall|j: int| 0 <= j < v@.len() ==> (#[trigger] v@[j]).1 <= 15,
{
    proof {
        old(br).lemma_pos_in_bounds();
        assert(Seq::<(u16, u8)>::empty() =~= Seq::empty());
    }
    let mut out: Vec<(u16, u8)> = Vec::new();
    let mut i: u16 = 0;
    let mut prev: Option<u8> = None;
    while i < count
        invariant
            br.wf(),
            br.buf() == old(br).buf(),
            br.pos() <= br.total_bits(),
            i <= count <= 320,
            (match prev {
                Some(pl) => pl <= 15,
                None => true,
            }),
            forall|j: int| 0 <= j < out@.len() ==> (#[trigger] out@[j]).1 <= 15,
            spec_read_lengths(*tree, br.buf(), br.pos(), i as nat, count as nat, prev, out@)
                == spec_read_lengths(
                *tree,
                old(br).buf(),
                old(br).pos(),
                0,
                count as nat,
                None,
                Seq::empty(),
            ),
        decreases count - i,
    {
        let v = match tree.get_value(br) {
            Ok(v) => v,
            Err(e) => {
                return Err(e);
            },
        };
        proof {
            br.lemma_pos_in_bounds();
            vstd::arithmetic::power2::lemma2_to64();
        }
        if v <= 15 {
            out.push((i, v as u8));
            prev = Some(v as u8);
            i = i + 1;
        } else if v == 16 {
            let pl = match prev {
                Some(p) => p,
                None => {
                    return Err(InflateError::InvalidCodeLengthRun);
                },
            };
            proof {
                crate::bitreader::lemma_bits_msb_bound(br.buf(), br.pos(), 2);
            }
            let k = match br.read_bits(2) {
                Ok(v) => v,
                Err(e) => {
                    return Err(e);
                },
            };
            let run = k + 3;
            if i + run > count {
                return Err(InflateError::InvalidCodeLengthRun);
            }
            let ghost out_pre = out@;
            let mut j: u16 = 0;
            proof {
                assert(out@ =~= out_pre + spec_run_pairs(i as nat, 0, pl));
            }
            while j < run
                invariant
                    j <= run,
                    i + run <= count <= 320,
                    out@ == out_pre + spec_run_pairs(i as nat, j as nat, pl),
                    pl <= 15,
                    forall|q: int| 0 <= q < out_pre.len() ==> (#[trigger] out_pre[q]).1 <= 15,
                decreases run - j,
            {
                out.push((i + j, pl));
                j = j + 1;
                proof {
                    assert(out@ =~= out_pre + spec_run_pairs(i as nat, j as nat, pl));
                }
            }
            proof {
                assert(forall|q: int|
                    0 <= q < out@.len() ==> (#[trigger] out@[q]).1 <= 15);
            }
            i = i + run;
        } else if v == 17 {
            proof {
                crate::bitreader::lemma_bits_msb_bound(br.buf(), br.pos(), 3);
            }
            let k = match br.read_bits(3) {
                Ok(v) => v,
                Err(e) => {
                    return Err(e);
                },
            };
            let run = k + 3;
            if i + run > count {
                return Err(InflateError::InvalidCodeLengthRun);
            }
            i = i + run;
        } else if v == 18 {
            proof {
                crate::bitreader::lemma_bits_msb_bound(br.buf(), br.pos(), 7);
            }
            let k = match br.read_bits(7) {
                Ok(v) => v,
                Err(e) => {
                    return Err(e);
                },
            };
            let run = k + 11;
            if i + run > count {
                return Err(InflateError::InvalidCodeLengthRun);
            }
            i = i + run;
        } else {
            return Err(InflateError::InvalidCodeLengthRun);
        }
        proof {
            br.lemma_pos_in_bounds();
        }
    }
    Ok(out)
}

/// Decodes a dynamic block: reads the header counts, builds the code-length
/// tree, decodes the combined code lengths, builds the two payload trees,
/// and runs the payload.
#[verifier::rlimit(100)]
fn inflate_method10(out_buffer: &mut Vec<u8>, br: &mut BitReader) -> (r: Result<(), InflateError>)
    requires
        old(br).wf(),
    ensures
        final(br).wf(),
        final(br).buf() == old(br).buf(),
        old(out_buffer)@.is_prefix_of(final(out_buffer)@),
        match spec_method10(old(br).buf(), old(br).pos(), old(out_buffer)@) {
            Ok(res) => r == Ok::<(), InflateError>(()) && final(br).pos() == res.0
                && final(out_buffer)@ == res.1,
            Err(e) => r == Err::<(), InflateError>(e),
        },
{
    proof {
        old(br).lemma_pos_in_bounds();
        vstd::arithmetic::power2::lemma2_to64();
        crate::bitreader::lemma_bits_lsb_bound(old(br).buf(), old(br).pos(), 5);
    }
    let hlit = match br.read_bits_lsb(5) {
        Ok(v) => v,
        Err(e) => {
            return Err(e);
        },
    };
    proof {
        crate::bitreader::lemma_bits_lsb_bound(br.buf(), br.pos(), 5);
    }
    let hdist = match br.read_bits_lsb(5) {
        Ok(v) => v,
        Err(e) => {
            return Err(e);
        },
    };
    proof {
        crate::bitreader::lemma_bits_lsb_bound(br.buf(), br.pos(), 4);
    }
    let hclen = match br.read_bits_lsb(4) {
        Ok(v) => v,
        Err(e) => {
            return Err(e);
        },
    };
    let nlit: u16 = hlit + 257;
    let ndist: u16 = hdist + 1;
    let ncode: u16 = hclen + 4;
    let mut hc_table: Vec<(u16, u8)> = Vec::new();
    let mut t: u16 = 0;
    while t < 19
        invariant
            t <= 19,
            hc_table@ == Seq::new(t as nat, |q: int| (q as u16, 0u8)),
        decreases 19 - t,
    {
        hc_table.push((t, 0));
        t = t + 1;
        proof {
            assert(hc_table@ =~= Seq::new(t as nat, |q: int| (q as u16, 0u8)));
        }
    }
    proof {
        assert(hc_table@ =~= spec_init_hclen());
    }
    let ghost p3 = br.pos();
    let mut i2: u16 = 0;
    while i2 < ncode
        invariant
            br.wf(),
            br.buf() == old(br).buf(),
            br.pos() <= br.total_bits(),
            i2 <= ncode <= 19,
            hc_table@.len() == 19,
            forall|q: int| 0 <= q < 19 ==> (#[trigger] hc_table@[q]).1 <= 7,
            spec_hclen_fold(br.buf(), br.pos(), i2 as nat, ncode as nat, hc_table@)
                == spec_hclen_fold(br.buf(), p3, 0, ncode as nat, spec_init_hclen()),
        decreases ncode - i2,
    {
        let code = lookup::hclen_order(i2 as usize);
        proof {
            vstd::arithmetic::power2::lemma2_to64();
            crate::bitreader::lemma_bits_msb_bound(br.buf(), br.pos(), 3);
        }
        let ghost table_pre = hc_table@;
        let val = match br.read_bits(3) {
            Ok(v) => v,
            Err(e) => {
                return Err(e);
            },
        };
        hc_table[code as usize] = (code, val as u8);
        i2 = i2 + 1;
        proof {
            assert(hc_table@ =~= table_pre.update(code as int, (code, val as u8)));
            br.lemma_pos_in_bounds();
        }
    }
    let tree_cc = match TreeNode::new(&hc_table) {
        Ok(t) => t,
        Err(e) => {
            return Err(e);
        },
    };
    proof {
        lemma_insert_seq_branch(
            TreeNode::Branch(None, None),
            spec_concat_levels(hc_table@, 15),
        );
    }
    let total: u16 = nlit + ndist;
    let lengths = match read_code_lengths(&tree_cc, br, total) {
        Ok(v) => v,
        Err(e) => {
            return Err(e);
        },
    };
    let mut lit: Vec<(u16, u8)> = Vec::new();
    let mut dist_lens: Vec<(u16, u8)> = Vec::new();
    let mut j2: usize = 0;
    proof {
        assert(lengths@.take(0) =~= Seq::<(u16, u8)>::empty());
        assert(lit@ =~= spec_split_lit(lengths@.take(0), nlit as nat));
        assert(dist_lens@ =~= spec_split_dist(lengths@.take(0), nlit as nat));
    }
    while j2 < lengths.len()
        invariant
            j2 <= lengths@.len(),
            lit@ == spec_split_lit(lengths@.take(j2 as int), nlit as nat),
            dist_lens@ == spec_split_dist(lengths@.take(j2 as int), nlit as nat),
            forall|q: int| 0 <= q < lengths@.len() ==> (#[trigger] lengths@[q]).1 <= 15,
            forall|q: int| 0 <= q < lit@.len() ==> (#[trigger] lit@[q]).1 <= 15,
            forall|q: int| 0 <= q < dist_lens@.len() ==> (#[trigger] dist_lens@[q]).1 <= 15,
        decreases lengths@.len() - j2,
    {
        let p = lengths[j2];
        proof {
            assert(lengths@.take(j2 as int + 1).drop_last() =~= lengths@.take(j2 as int));
            assert(lengths@.take(j2 as int + 1).last() == lengths@[j2 as int]);
        }
        if p.0 < nlit {
            lit.push(p);
        } else {
            dist_lens.push((p.0 - nlit, p.1));
        }
        j2 = j2 + 1;
        proof {
            assert(lit@ =~= spec_split_lit(lengths@.take(j2 as int), nlit as nat));
            assert(dist_lens@ =~= spec_split_dist(lengths@.take(j2 as int), nlit as nat));
        }
    }
    proof {
        assert(lengths@.take(lengths@.len() as int) =~= lengths@);
    }
    let tlit = match TreeNode::new(&lit) {
        Ok(t) => t,
        Err(e) => {
            return Err(e);
        },
    };
    let tdist = match TreeNode::new(&dist_lens) {
        Ok(t) => t,
        Err(e) => {
            return Err(e);
        },
    };
    proof {
        lemma_insert_seq_branch(TreeNode::Branch(None, None), spec_concat_levels(lit@, 15));
        lemma_insert_seq_branch(
            TreeNode::Branch(None, None),
            spec_concat_levels(dist_lens@, 15),
        );
        br.lemma_pos_in_bounds();
    }
    run_dynamic(&tlit, &tdist, out_buffer, br)
}

/// Runs a dynamic block's payload with its two built trees.
fn run_dynamic(
    tlit: &TreeNode,
    tdist: &TreeNode,
    out_buffer: &mut Vec<u8>,
    br: &mut BitReader,
) -> (r: Result<(), InflateError>)
    requires
        old(br).wf(),
        *tlit is Branch,
        *tdist is Branch,
    ensures
        final(br).wf(),
        final(br).buf() == old(br).buf(),
        old(out_buffer)@.is_prefix_of(final(out_buffer)@),
        match spec_run10(*tlit, *tdist, old(br).buf(), old(br).pos(), old(out_buffer)@) {
            Ok(res) => r == Ok::<(), InflateError>(()) && final(br).pos() == res.0
                && final(out_buffer)@ == res.1,
            Err(e) => r == Err::<(), InflateError>(e),
        },
{
    proof {
        old(br).lemma_pos_in_bounds();
    }
    loop
        invariant
            br.wf(),
            br.buf() == old(br).buf(),
            br.pos() <= br.total_bits(),
            old(out_buffer)@.is_prefix_of(out_buffer@),
            spec_run10(*tlit, *tdist, br.buf(), br.pos(), out_buffer@) == spec_run10(
                *tlit,
                *tdist,
                old(br).buf(),
                old(br).pos(),
                old(out_buffer)@,
            ),
        decreases br.total_bits() - br.pos(),
    {
        let ghost pos_it = br.pos();
        let sym = match tlit.get_value(br) {
            Ok(v) => v,
            Err(e) => {
                return Err(e);
            },
        };
        proof {
            br.lemma_pos_in_bounds();
            lemma_decode_symbol_advances(*tlit, br.buf(), pos_it);
        }
        if sym == 256 {
            return Ok(());
        }
        if sym < 256 {
            let ghost out_it = out_buffer@;
            out_buffer.push(sym as u8);
            proof {
                assert(out_it.push(sym as u8) =~= out_buffer@);
            }
        } else {
            if sym > 285 {
                return Err(InflateError::LengthCodeOutOfRange);
            }
            let ent = lookup::length_entry(sym);
            proof {
                assert(ent.1 <= 5 && ent.0 <= 258);
                vstd::arithmetic::power2::lemma2_to64();
                crate::bitreader::lemma_bits_msb_bound(br.buf(), br.pos(), ent.1 as nat);
                lemma_pow2_le(ent.1 as nat, 5);
            }
            let extra = match br.read_bits(ent.1) {
                Ok(v) => v,
                Err(e) => {
                    return Err(e);
                },
            };
            let length = ent.0 + extra;
            let ghost pos_d = br.pos();
            let dsym = match tdist.get_value(br) {
                Ok(v) => v,
                Err(e) => {
                    return Err(e);
                },
            };
            proof {
                br.lemma_pos_in_bounds();
                lemma_decode_symbol_advances(*tdist, br.buf(), pos_d);
            }
            if dsym > 29 {
                return Err(InflateError::DistanceOutOfRange);
            }
            let dent = lookup::dist_entry(dsym);
            proof {
                assert(dent.1 <= 13 && 1 <= dent.0 <= 24577);
                vstd::arithmetic::power2::lemma2_to64();
                crate::bitreader::lemma_bits_msb_bound(br.buf(), br.pos(), dent.1 as nat);
                lemma_pow2_le(dent.1 as nat, 13);
            }
            let dextra = match br.read_bits(dent.1) {
                Ok(v) => v,
                Err(e) => {
                    return Err(e);
                },
            };
            let dist = dent.0 + dextra;
            if dist as usize > out_buffer.len() {
                return Err(InflateError::DistanceOutOfRange);
            }
            let ghost out_it = out_buffer@;
            copy_backref(out_buffer, dist as usize, length as usize);
            proof {
                lemma_backref_prefix(out_it, dist as nat, length as nat);
            }
        }
        proof {
            br.lemma_pos_in_bounds();
        }
    }
}

/// Decodes one block: the final-flag bit, the two-bit LSB-packed type, and
/// the matching block body; returns the final flag.
pub fn inflate_block(out_buffer: &mut Vec<u8>, br: &mut BitReader) -> (r: Result<
    bool,
    InflateError,
>)
    requires
        old(br).wf(),
    ensures
        final(br).wf(),
        final(br).buf() == old(br).buf(),
        old(out_buffer)@.is_prefix_of(final(out_buffer)@),
        match spec_block(old(br).buf(), old(br).pos(), old(out_buffer)@) {
            Ok(res) => r == Ok::<bool, InflateError>(res.0) && final(br).pos() == res.1
                && final(out_buffer)@ == res.2,
            Err(e) => r == Err::<bool, InflateError>(e),
        },
{
    proof {
        old(br).lemma_pos_in_bounds();
        crate::bitreader::lemma_bit_at_bound(old(br).buf(), old(br).pos());
    }
    let last = match br.read_bit() {
        Ok(v) => v,
        Err(e) => {
            return Err(e);
        },
    };
    let btype = match br.read_bits_lsb(2) {
        Ok(v) => v,
        Err(e) => {
            return Err(e);
        },
    };
    proof {
        vstd::arithmetic::power2::lemma2_to64();
        crate::bitreader::lemma_bits_lsb_bound(old(br).buf(), old(br).pos() + 1, 2);
    }
    if btype == 0 {
        match inflate_method00(out_buffer, br) {
            Ok(_) => {},
            Err(e) => {
                return Err(e);
            },
        }
    } else if btype == 1 {
        match inflate_method01(out_buffer, br) {
            Ok(_) => {},
            Err(e) => {
                return Err(e);
            },
        }
    } else if btype == 2 {
        match inflate_method10(out_buffer, br) {
            Ok(_) => {},
            Err(e) => {
                return Err(e);
            },
        }
    } else {
        return Err(InflateError::UnsupportedMethod { method: btype as u8 });
    }
    Ok(last != 0)
}


/// A successful header-length read moves forward and stays in the buffer.
pub proof fn lemma_hclen_fold_advances(
    data: Seq<u8>,
    pos: nat,
    i: nat,
    n: nat,
    table: Seq<(u16, u8)>,
)
    requires
        pos <= data.len() * 8,
    ensures
        spec_hclen_fold(data, pos, i, n, table) matches Ok(res) ==> pos <= res.1 <= data.len()
            * 8,
    decreases n - i,
{
    if i < n {
        match crate::bitreader::spec_take_msb(data, pos, 3) {
            Err(_) => {},
            Ok((val, p)) => {
                let sym = lookup::spec_hclen_order(i);
                lemma_hclen_fold_advances(
                    data,
                    p,
                    i + 1,
                    n,
                    table.update(sym as int, (sym, val as u8)),
                );
            },
        }
    }
}

/// A successful code-length decode moves forward and stays in the buffer.
pub proof fn lemma_read_lengths_advances(
    t: TreeNode,
    data: Seq<u8>,
    pos: nat,
    i: nat,
    count: nat,
    prev: Option<u8>,
    acc: Seq<(u16, u8)>,
)
    requires
        pos <= data.len() * 8,
    ensures
        spec_read_lengths(t, data, pos, i, count, prev, acc) matches Ok(res) ==> pos <= res.1
            <= data.len() * 8,
    decreases 8 * data.len() - pos,
{
    if i < count && t is Branch {
        match spec_decode_symbol(t, data, pos) {
            Err(_) => {},
            Ok((v, p1)) => {
                lemma_decode_symbol_advances(t, data, pos);
                if v <= 15 {
                    lemma_read_lengths_advances(
                        t,
                        data,
                        p1,
                        i + 1,
                        count,
                        Some(v as u8),
                        acc.push((i as u16, v as u8)),
                    );
                } else if v == 16 {
                    match prev {
                        None => {},
                        Some(pl) => match crate::bitreader::spec_take_msb(data, p1, 2) {
                            Err(_) => {},
                            Ok((k, p2)) => {
                                if i + k + 3 <= count {
                                    lemma_read_lengths_advances(
                                        t,
                                        data,
                                        p2,
                                        i + k + 3,
                                        count,
                                        prev,
                                        acc + spec_run_pairs(i, (k + 3) as nat, pl),
                                    );
                                }
                            },
                        },
                    }
                } else if v == 17 {
                    match crate::bitreader::spec_take_msb(data, p1, 3) {
                        Err(_) => {},
                        Ok((k, p2)) => {
                            if i + k + 3 <= count {
                                lemma_read_lengths_advances(t, data, p2, i + k + 3, count, prev, acc);
                            }
                        },
                    }
                } else if v == 18 {
                    match crate::bitreader::spec_take_msb(data, p1, 7) {
                        Err(_) => {},
                        Ok((k, p2)) => {
                            if i + k + 11 <= count {
                                lemma_read_lengths_advances(t, data, p2, i + k + 11, count, prev, acc);
                            }
                        },
                    }
                }
            },
        }
    }
}

/// A fixed-code run that ends well consumed at least its end-of-block
/// symbol and stayed inside the buffer.
pub proof fn lemma_run01_advances(data: Seq<u8>, pos: nat, out: Seq<u8>)
    ensures
        spec_run01(data, pos, out) matches Ok(res) ==> pos < res.0 <= data.len() * 8,
    decreases 8 * data.len() - pos,
{
    match spec_fixed_symbol(data, pos) {
        Err(_) => {},
        Ok((sym, p1)) => {
            if sym == 256 {
            } else if sym < 256 {
                lemma_run01_advances(data, p1, out.push(sym as u8));
            } else {
                match spec_length_of(sym, data, p1) {
                    Err(_) => {},
                    Ok((length, p2)) => match crate::bitreader::spec_take_lsb(data, p2, 5) {
                        Err(_) => {},
                        Ok((dcode, p3)) => match spec_dist_of(dcode as u16, data, p3) {
                            Err(_) => {},
                            Ok((dist, p4)) => {
                                if dist <= out.len() {
                                    lemma_run01_advances(
                                        data,
                                        p4,
                                        spec_backref(out, dist as nat, length as nat),
                                    );
                                }
                            },
                        },
                    },
                }
            }
        },
    }
}

/// A dynamic-code run that ends well consumed at least its end-of-block
/// symbol and stayed inside the buffer.
pub proof fn lemma_run10_advances(
    tlit: TreeNode,
    tdist: TreeNode,
    data: Seq<u8>,
    pos: nat,
    out: Seq<u8>,
)
    ensures
        spec_run10(tlit, tdist, data, pos, out) matches Ok(res) ==> pos < res.0 <= data.len()
            * 8,
    decreases 8 * data.len() - pos,
{
    if tlit is Branch && tdist is Branch {
        match spec_decode_symbol(tlit, data, pos) {
            Err(_) => {},
            Ok((sym, p1)) => {
                lemma_decode_symbol_advances(tlit, data, pos);
                if sym == 256 {
                } else if sym < 256 {
                    lemma_run10_advances(tlit, tdist, data, p1, out.push(sym as u8));
                } else {
                    match spec_length_of(sym, data, p1) {
                        Err(_) => {},
                        Ok((length, p2)) => match spec_decode_symbol(tdist, data, p2) {
                            Err(_) => {},
                            Ok((dsym, p3)) => {
                                lemma_decode_symbol_advances(tdist, data, p2);
                                match spec_dist_of(dsym, data, p3) {
                                    Err(_) => {},
                                    Ok((dist, p4)) => {
                                        if dist <= out.len() {
                                            lemma_run10_advances(
                                                tlit,
                                                tdist,
                                                data,
                                                p4,
                                                spec_backref(out, dist as nat, length as nat),
                                            );
                                        }
                                    },
                                }
                            },
                        },
                    }
                }
            },
        }
    }
}

/// A stored block that ends well leaves the cursor past where it began and
/// inside the buffer.
pub proof fn lemma_method00_advances(data: Seq<u8>, pos: nat, out: Seq<u8>)
    requires
        pos <= data.len() * 8,
    ensures
        spec_method00(data, pos, out) matches Ok(res) ==> pos < res.0 <= data.len() * 8,
{
    crate::bitreader::lemma_align8(pos);
    crate::bitreader::lemma_align8_in_bounds(pos, data.len());
    let a = crate::bitreader::align8(pos);
    let idx = a / 8;
    if idx + 4 <= data.len() {
        let len16 = (data[idx as int] + data[idx as int + 1] * 0x100) as u16;
        if idx + 4 + len16 <= data.len() {
            assert(8 * (idx + 4 + len16) <= 8 * data.len()) by (nonlinear_arith)
                requires
                    idx + 4 + len16 <= data.len(),
            ;
            assert(a < 8 * (idx + 4 + len16)) by (nonlinear_arith)
                requires
                    a == 8 * idx,
            ;
        }
    }
}

/// A dynamic block that ends well leaves the cursor past where it began and
/// inside the buffer.
pub proof fn lemma_method10_advances(data: Seq<u8>, pos: nat, out: Seq<u8>)
    requires
        pos <= data.len() * 8,
    ensures
        spec_method10(data, pos, out) matches Ok(res) ==> pos < res.0 <= data.len() * 8,
{
    match crate::bitreader::spec_take_lsb(data, pos, 5) {
        Err(_) => {},
        Ok((hlit, p1)) => match crate::bitreader::spec_take_lsb(data, p1, 5) {
            Err(_) => {},
            Ok((hdist, p2)) => match crate::bitreader::spec_take_lsb(data, p2, 4) {
                Err(_) => {},
                Ok((hclen, p3)) => match spec_hclen_fold(data, p3, 0, hclen + 4, spec_init_hclen()) {
                    Err(_) => {},
                    Ok((table, p4)) => {
                        lemma_hclen_fold_advances(data, p3, 0, hclen + 4, spec_init_hclen());
                        match spec_build_tree(table) {
                            Err(_) => {},
                            Ok(tcc) => {
                                let cnt = hlit + 257 + hdist + 1;
                                match spec_read_lengths(tcc, data, p4, 0, cnt, None, Seq::empty()) {
                                    Err(_) => {},
                                    Ok((pairs, p5)) => {
                                        lemma_read_lengths_advances(
                                            tcc,
                                            data,
                                            p4,
                                            0,
                                            cnt,
                                            None,
                                            Seq::empty(),
                                        );
                                        match spec_build_tree(spec_split_lit(pairs, hlit + 257)) {
                                            Err(_) => {},
                                            Ok(tlit) => match spec_build_tree(
                                                spec_split_dist(pairs, hlit + 257),
                                            ) {
                                                Err(_) => {},
                                                Ok(tdist) => {
                                                    lemma_run10_advances(tlit, tdist, data, p5, out);
                                                },
                                            },
                                        }
                                    },
                                }
                            },
                        }
                    },
                },
            },
        },
    }
}

/// A block that ends well leaves the cursor strictly past where it began
/// and inside the buffer.
pub proof fn lemma_block_advances(data: Seq<u8>, pos: nat, out: Seq<u8>)
    ensures
        spec_block(data, pos, out) matches Ok(res) ==> pos < res.1 <= data.len() * 8,
{
    if pos < data.len() * 8 {
        match crate::bitreader::spec_take_lsb(data, pos + 1, 2) {
            Err(_) => {},
            Ok((btype, p)) => {
                if btype == 0 {
                    lemma_method00_advances(data, p, out);
                } else if btype == 1 {
                    lemma_run01_advances(data, p, out);
                } else if btype == 2 {
                    lemma_method10_advances(data, p, out);
                }
            },
        }
    }
}


/// Walks `path` from the root, 0 going left and 1 right; the symbol of the
/// leaf reached exactly at the end of the path, if one is there.
pub open spec fn spec_path_decode(t: TreeNode, path: Seq<bool>) -> Option<u16>
    decreases t,
{
    match t {
        TreeNode::Leaf(v) => if path.len() == 0 {
            Some(v)
        } else {
            None
        },
        TreeNode::Branch(l, r) => {
            if path.len() == 0 {
                None
            } else {
                let c = if !path[0] {
                    l
                } else {
                    r
                };
                match c {
                    None => None,
                    Some(b) => spec_path_decode(*b, path.drop_first()),
                }
            }
        },
    }
}

/// The path a bit-packed code of depth `len` denotes: bit `i` of the code
/// is the direction taken at depth `i`.
pub open spec fn spec_code_path(c: nat, len: nat) -> Seq<bool> {
    Seq::new(len, |i: int| c / pow2(i as nat) % 2 == 1)
}

proof fn lemma_code_path_step(c: nat, d: nat, len: nat)
    requires
        d < 2,
        len >= 1,
    ensures
        spec_code_path((c * 2 + d) as nat, len) =~= seq![d == 1] + spec_code_path(
            c,
            (len - 1) as nat,
        ),
{
    let p = spec_code_path((c * 2 + d) as nat, len);
    let q = seq![d == 1] + spec_code_path(c, (len - 1) as nat);
    assert(p.len() == q.len());
    assert forall|i: int| 0 <= i < len implies p[i] == q[i] by {
        vstd::arithmetic::power2::lemma2_to64();
        if i == 0 {
            assert((c * 2 + d) / 1 % 2 == d) by (nonlinear_arith)
                requires
                    d < 2,
            ;
        } else {
            vstd::arithmetic::power2::lemma_pow2_unfold(i as nat);
            vstd::arithmetic::power2::lemma_pow2_pos((i - 1) as nat);
            vstd::arithmetic::div_mod::lemma_div_denominator(
                (c * 2 + d) as int,
                2,
                pow2((i - 1) as nat) as int,
            );
            assert((c * 2 + d) / 2 == c) by (nonlinear_arith)
                requires
                    d < 2,
            ;
            assert(pow2(i as nat) == 2 * pow2((i - 1) as nat));
            assert((c * 2 + d) as int / (2 * pow2((i - 1) as nat) as int) == c as int / pow2((i - 1) as nat) as int);
        }
    }
}

/// A successful insertion places its leaf exactly where the returned code
/// points: walking the new tree along the code's path finds the value.
pub proof fn lemma_insert_places(t: TreeNode, value: u16, len: nat)
    requires
        spec_insert(t, value, len).2,
    ensures
        spec_path_decode(
            spec_insert(t, value, len).0,
            spec_code_path(spec_insert(t, value, len).1, len),
        ) == Some(value),
    decreases len,
{
    vstd::arithmetic::power2::lemma2_to64();
    match t {
        TreeNode::Leaf(_) => {},
        TreeNode::Branch(l, r) => {
            if len == 1 {
                let path = spec_code_path(spec_insert(t, value, len).1, 1);
                if l is None {
                    assert(path =~= seq![false]);
                    assert(path.drop_first() =~= Seq::<bool>::empty());
                    assert(spec_path_decode(TreeNode::Leaf(value), path.drop_first()) == Some(
                        value,
                    ));
                } else {
                    assert(path =~= seq![true]);
                    assert(path.drop_first() =~= Seq::<bool>::empty());
                    assert(spec_path_decode(TreeNode::Leaf(value), path.drop_first()) == Some(
                        value,
                    ));
                }
            } else {
                let lres = spec_insert(child_tree(l), value, (len - 1) as nat);
                if lres.2 {
                    lemma_insert_places(child_tree(l), value, (len - 1) as nat);
                    lemma_code_path_step(lres.1, 0, len);
                    let path = spec_code_path((lres.1 * 2) as nat, len);
                    assert(path[0] == false);
                    assert(path.drop_first() =~= spec_code_path(lres.1, (len - 1) as nat));
                } else {
                    let rres = spec_insert(child_tree(r), value, (len - 1) as nat);
                    lemma_insert_places(child_tree(r), value, (len - 1) as nat);
                    lemma_code_path_step(rres.1, 1, len);
                    let path = spec_code_path((rres.1 * 2 + 1) as nat, len);
                    assert(path[0] == true);
                    assert(path.drop_first() =~= spec_code_path(rres.1, (len - 1) as nat));
                }
            }
        },
    }
}

/// Insertion never disturbs a leaf that could already be reached.
pub proof fn lemma_insert_preserves(t: TreeNode, value: u16, len: nat, path: Seq<bool>, w: u16)
    requires
        spec_path_decode(t, path) == Some(w),
    ensures
        spec_path_decode(spec_insert(t, value, len).0, path) == Some(w),
    decreases len,
{
    if !spec_insert(t, value, len).2 {
        lemma_insert_fail_unchanged(t, value, len);
    } else {
        match t {
            TreeNode::Leaf(_) => {},
            TreeNode::Branch(l, r) => {
                if len == 1 {
                } else {
                    let lres = spec_insert(child_tree(l), value, (len - 1) as nat);
                    if lres.2 {
                        if !path[0] {
                            match l {
                                None => {},
                                Some(lb) => {
                                    lemma_insert_preserves(
                                        *lb,
                                        value,
                                        (len - 1) as nat,
                                        path.drop_first(),
                                        w,
                                    );
                                },
                            }
                        }
                    } else {
                        if path[0] {
                            match r {
                                None => {},
                                Some(rb) => {
                                    lemma_insert_preserves(
                                        *rb,
                                        value,
                                        (len - 1) as nat,
                                        path.drop_first(),
                                        w,
                                    );
                                },
                            }
                        }
                    }
                }
            },
        }
    }
}

/// A reachable leaf survives a whole sequence of insertions.
proof fn lemma_insert_seq_preserves(t: TreeNode, s: Seq<(u16, u8)>, path: Seq<bool>, w: u16)
    requires
        spec_insert_seq(t, s) is Ok,
        spec_path_decode(t, path) == Some(w),
    ensures
        spec_path_decode(spec_insert_seq(t, s)->Ok_0, path) == Some(w),
    decreases s.len(),
{
    if s.len() > 0 {
        let e = spec_insert(t, s[0].0, s[0].1 as nat);
        lemma_insert_preserves(t, s[0].0, s[0].1 as nat, path, w);
        lemma_insert_seq_preserves(e.0, s.drop_first(), path, w);
    }
}

/// Every pair inserted on the way to a finished tree can be decoded from
/// it: its symbol sits at the end of a path exactly as long as its code
/// length.
pub proof fn lemma_insert_seq_round_trip(t: TreeNode, s: Seq<(u16, u8)>, i: int)
    requires
        spec_insert_seq(t, s) is Ok,
        0 <= i < s.len(),
        s[i].1 >= 1,
    ensures
        exists|p: Seq<bool>|
            p.len() == s[i].1 && spec_path_decode(spec_insert_seq(t, s)->Ok_0, p) == Some(
                s[i].0,
            ),
    decreases s.len(),
{
    let e = spec_insert(t, s[0].0, s[0].1 as nat);
    if i == 0 {
        lemma_insert_places(t, s[0].0, s[0].1 as nat);
        let p = spec_code_path(e.1, s[0].1 as nat);
        lemma_insert_seq_preserves(e.0, s.drop_first(), p, s[0].0);
        assert(p.len() == s[0].1 && spec_path_decode(spec_insert_seq(t, s)->Ok_0, p) == Some(
            s[0].0,
        ));
    } else {
        lemma_insert_seq_round_trip(e.0, s.drop_first(), i - 1);
        assert(s.drop_first()[i - 1] == s[i]);
    }
}

/// A pair of positive length always appears among the pairs of its length.
proof fn lemma_with_len_contains(s: Seq<(u16, u8)>, i: int)
    requires
        0 <= i < s.len(),
    ensures
        spec_with_len(s, s[i].1).contains(s[i]),
    decreases s.len(),
{
    let l = s[i].1;
    if i == s.len() - 1 {
        let pre = spec_with_len(s.drop_last(), l);
        assert(spec_with_len(s, l)[pre.len() as int] == s[i]);
    } else {
        lemma_with_len_contains(s.drop_last(), i);
        assert(s.drop_last()[i] == s[i]);
        let pre = spec_with_len(s.drop_last(), l);
        let j = choose|j: int| 0 <= j < pre.len() && pre[j] == s[i];
        assert(spec_with_len(s, l)[j] == s[i]);
    }
}

/// A pair with length between one and `l` appears in the length-sorted
/// arrangement up to `l`.
proof fn lemma_concat_levels_contains(s: Seq<(u16, u8)>, l: nat, i: int)
    requires
        0 <= i < s.len(),
        1 <= s[i].1 <= l,
    ensures
        spec_concat_levels(s, l).contains(s[i]),
    decreases l,
{
    let pre = spec_concat_levels(s, (l - 1) as nat);
    let lvl = spec_with_len(s, l as u8);
    if s[i].1 == l {
        lemma_with_len_contains(s, i);
        let j = choose|j: int| 0 <= j < lvl.len() && lvl[j] == s[i];
        assert(spec_concat_levels(s, l)[pre.len() + j] == s[i]);
    } else {
        lemma_concat_levels_contains(s, (l - 1) as nat, i);
        let j = choose|j: int| 0 <= j < pre.len() && pre[j] == s[i];
        assert(spec_concat_levels(s, l)[j] == s[i]);
    }
}

/// The canonical round trip: a well-formed code-length vector builds a
/// tree in which every symbol of positive length hangs at depth equal to
/// its length, and walking the tree along that leaf's bit pattern returns
/// the symbol.
pub proof fn lemma_build_tree_round_trip(s: Seq<(u16, u8)>, t: TreeNode, i: int)
    requires
        spec_build_tree(s) == Ok::<TreeNode, InflateError>(t),
        0 <= i < s.len(),
        1 <= s[i].1 <= 15,
    ensures
        exists|p: Seq<bool>| p.len() == s[i].1 && spec_path_decode(t, p) == Some(s[i].0),
{
    lemma_concat_levels_contains(s, 15, i);
    let sorted = spec_concat_levels(s, 15);
    let j = choose|j: int| 0 <= j < sorted.len() && sorted[j] == s[i];
    lemma_insert_seq_round_trip(TreeNode::Branch(None, None), sorted, j);
}

/// Walking a path through the tree and decoding the same directions from
/// the bit stream agree: when `path` hangs a leaf and the bits at `pos`
/// spell `path`, the stream decode returns that leaf's symbol and stops
/// right after the path's bits.
pub proof fn lemma_path_decode_bits(t: TreeNode, path: Seq<bool>, data: Seq<u8>, pos: nat, v: u16)
    requires
        spec_path_decode(t, path) == Some(v),
        pos + path.len() <= data.len() * 8,
        forall|i: int|
            0 <= i < path.len() ==> (bit_at(data, (pos + i) as nat) == 1) == path[i],
    ensures
        spec_decode_symbol(t, data, pos) == Ok::<(u16, nat), InflateError>(
            (v, (pos + path.len()) as nat),
        ),
    decreases t,
{
    match t {
        TreeNode::Leaf(_) => {},
        TreeNode::Branch(l, r) => {
            lemma_bit_at_bound(data, pos);
            let c = if !path[0] {
                l
            } else {
                r
            };
            match c {
                None => {},
                Some(b) => {
                    assert((bit_at(data, pos) == 1) == path[0]);
                    lemma_path_decode_bits(*b, path.drop_first(), data, pos + 1, v);
                },
            }
        },
    }
}

} // verus!
