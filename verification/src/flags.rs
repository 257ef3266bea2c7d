//! Rows of flags, and square tables of them.

use bitvec::order::Lsb0;
use bitvec::vec::BitVec;
use vstd::prelude::*;

verus! {

/// A row of flags, densely packed by `bitvec::vec::BitVec`.
#[derive(Debug)]
#[verifier::external_body]
pub struct Bits {
    inner: BitVec<usize, Lsb0>,
}

/// The flags of a row.
pub uninterp spec fn bit_values(bits: Bits) -> Seq<bool>;

impl View for Bits {
    type V = Seq<bool>;

    open spec fn view(&self) -> Seq<bool> {
        bit_values(*self)
    }
}

/// The places, in ascending order, at which a row of flags up to a length has a given value.
pub open spec fn places(flags: Seq<bool>, value: bool, len: nat) -> Seq<usize>
    decreases len,
{
    if len == 0 {
        Seq::empty()
    } else if flags[len - 1] == value {
        places(flags, value, (len - 1) as nat).push((len - 1) as usize)
    } else {
        places(flags, value, (len - 1) as nat)
    }
}

impl Bits {
    /// Calls `BitVec::repeat`: a row of the given length in which every flag is `value`.
    #[verifier::external_body]
    pub(crate) fn repeat(value: bool, len: usize) -> (bits: Self)
        requires
            len <= usize::MAX / 8,
        ensures
            bit_values(bits) == Seq::new(len as nat, |i: int| value),
    {
        Bits { inner: BitVec::repeat(value, len) }
    }

    /// Calls `len` of `BitVec`: the number of flags.
    #[verifier::external_body]
    pub(crate) fn len(&self) -> (len: usize)
        ensures
            len == bit_values(*self).len(),
    {
        self.inner.len()
    }

    /// Reads a flag by indexing a `BitVec`.
    #[verifier::external_body]
    pub(crate) fn get(&self, i: usize) -> (value: bool)
        requires
            i < bit_values(*self).len(),
        ensures
            value == bit_values(*self)[i as int],
    {
        self.inner[i]
    }

    /// Calls `set` of `BitSlice`, which changes one flag.
    #[verifier::external_body]
    pub(crate) fn set(&mut self, i: usize, value: bool)
        requires
            i < bit_values(*old(self)).len(),
        ensures
            bit_values(*final(self)) == bit_values(*old(self)).update(i as int, value),
    {
        self.inner.set(i, value);
    }

    /// Calls `fill` of `BitSlice`, which sets every flag to the same value.
    #[verifier::external_body]
    pub(crate) fn fill(&mut self, value: bool)
        ensures
            bit_values(*final(self)) == Seq::new(bit_values(*old(self)).len(), |i: int| value),
    {
        self.inner.fill(value);
    }

    /// Calls `to_bitvec` of `BitSlice`, which copies the flags from `start` up to `end`. The words
    /// that hold the copy must not have room for more flags than a row may have.
    #[verifier::external_body]
    pub(crate) fn slice(&self, start: usize, end: usize) -> (bits: Self)
        requires
            start <= end <= bit_values(*self).len(),
            end - start <= usize::MAX / 16,
        ensures
            bit_values(bits) == bit_values(*self).subrange(start as int, end as int),
    {
        Bits { inner: self.inner[start..end].to_bitvec() }
    }

    /// Calls `|=` of `BitSlice` on the flags from `start` up to `end`: each becomes set if the
    /// flag of `other` at its place among them is.
    #[verifier::external_body]
    pub(crate) fn or_slice(&mut self, start: usize, end: usize, other: &Bits)
        requires
            start <= end <= bit_values(*old(self)).len(),
            bit_values(*other).len() == end - start,
        ensures
            bit_values(*final(self)) == Seq::new(
                bit_values(*old(self)).len(),
                |i: int|
                    bit_values(*old(self))[i] || (start <= i < end && bit_values(*other)[i - start]),
            ),
    {
        self.inner[start..end] |= other.inner.as_bitslice();
    }

    /// Calls `&=` of `BitVec` on two rows of one length: a flag stays set if that of `other` is.
    #[verifier::external_body]
    pub(crate) fn and(&mut self, other: &Bits)
        requires
            bit_values(*other).len() == bit_values(*old(self)).len(),
        ensures
            bit_values(*final(self)) == Seq::new(
                bit_values(*old(self)).len(),
                |i: int| bit_values(*old(self))[i] && bit_values(*other)[i],
            ),
    {
        self.inner &= other.inner.as_bitslice();
    }

    /// Calls `iter_ones` of `BitSlice`: the places of the flags that are set, in ascending order.
    #[verifier::external_body]
    pub(crate) fn ones(&self) -> (ones: Vec<usize>)
        ensures
            ones@ == places(bit_values(*self), true, bit_values(*self).len()),
    {
        self.inner.iter_ones().collect()
    }

    /// Calls `iter_zeros` of `BitSlice`: the places of the flags that are not set, in ascending
    /// order.
    #[verifier::external_body]
    pub(crate) fn zeros(&self) -> (zeros: Vec<usize>)
        ensures
            zeros@ == places(bit_values(*self), false, bit_values(*self).len()),
    {
        self.inner.iter_zeros().collect()
    }

    /// Copies the row.
    pub(crate) fn copy(&self) -> (bits: Self)
        requires
            self@.len() <= usize::MAX / 16,
        ensures
            bits@ == self@,
    {
        let len = self.len();
        let bits = self.slice(0, len);
        assert(bits@ =~= self@);
        bits
    }
}

/// The places that [`places`] lists are those at which the row has the value, each once and in
/// ascending order.
pub proof fn lemma_places(flags: Seq<bool>, value: bool, len: nat)
    requires
        len <= flags.len(),
        flags.len() <= usize::MAX,
    ensures
        forall|k: int|
            0 <= k < places(flags, value, len).len() ==> (#[trigger] places(flags, value, len)[k]) < len
                && flags[places(flags, value, len)[k] as int] == value,
        forall|k: int, l: int|
            0 <= k < l < places(flags, value, len).len() ==> (#[trigger] places(flags, value, len)[k]) < (
            #[trigger] places(flags, value, len)[l]),
        forall|i: int|
            0 <= i < len && flags[i] == value ==> #[trigger] places(flags, value, len).contains(i as usize),
    decreases len,
{
    if len > 0 {
        lemma_places(flags, value, (len - 1) as nat);
        let before = places(flags, value, (len - 1) as nat);
        let after = places(flags, value, len);
        assert forall|i: int| 0 <= i < len && flags[i] == value implies #[trigger] after.contains(i as usize) by {
            if i < len - 1 {
                assert(before.contains(i as usize));
                let k = before.index_of(i as usize);
                assert(after[k] == i as usize);
            } else {
                assert(after[before.len() as int] == i as usize);
            }
        }
    }
}

/// The places at which a row of flags has a value are all listed, and no others, in ascending order.
pub proof fn law_places_are_ascending(flags: Seq<bool>, value: bool, i: int, k: int, l: int)
    requires
        flags.len() <= usize::MAX,
    ensures
        0 <= i < flags.len() ==> (flags[i] == value <==> places(flags, value, flags.len()).contains(i as usize)),
        0 <= k < places(flags, value, flags.len()).len() ==> places(flags, value, flags.len())[k] < flags.len(),
        0 <= k < l < places(flags, value, flags.len()).len() ==> places(flags, value, flags.len())[k] < places(
            flags,
            value,
            flags.len(),
        )[l],
{
    lemma_places(flags, value, flags.len());
    let list = places(flags, value, flags.len());
    if 0 <= i < flags.len() && list.contains(i as usize) {
        let at = list.index_of(i as usize);
        assert(flags[list[at] as int] == value);
    }
}

/// Represents a densely-packed list of rows of flags, used to store per-package information about
/// other packages.
#[derive(Debug)]
pub struct PackageFlagsList {
    /// All rows, one after the other.
    data: Bits,
    /// The number of flags in a row, and the number of rows.
    stride: usize,
}

/// The place of a flag in a table whose rows stand one after the other is in the table, and in the
/// part of it that its row takes up.
proof fn lemma_cell(stride: int, i: int, j: int)
    by (nonlinear_arith)
    requires
        0 <= i < stride,
        0 <= j < stride,
    ensures
        0 <= i * stride <= i * stride + j < i * stride + stride <= stride * stride,
{
}

/// Flags of different rows stand at different places.
proof fn lemma_cells_apart(stride: int, i: int, j: int, k: int)
    by (nonlinear_arith)
    requires
        0 <= i < stride,
        0 <= j < stride,
        0 <= k < stride,
        i != k,
    ensures
        !(k * stride <= i * stride + j < k * stride + stride),
{
}

impl PackageFlagsList {
    /// The number of rows, and the number of flags in a row.
    pub closed spec fn size(self) -> nat {
        self.stride as nat
    }

    /// The flag for package `j` in the row of package `i`.
    pub closed spec fn at(self, i: int, j: int) -> bool {
        self.data@[i * self.stride + j]
    }

    /// Whether the rows fill the list.
    pub closed spec fn wf(self) -> bool {
        self.data@.len() == self.stride * self.stride <= usize::MAX / 8
    }

    /// A row is short, since the square of its length can be counted.
    pub proof fn lemma_row_is_short(&self)
        requires
            self.wf(),
        ensures
            self.size() <= usize::MAX / 16,
    {
        let n = self.stride as int;
        assert(n <= 1 || 2 * n <= n * n) by (nonlinear_arith)
            requires
                0 <= n,
        ;
    }

    /// The row of package `i`.
    pub open spec fn row(self, i: int) -> Seq<bool> {
        Seq::new(self.size(), |j: int| self.at(i, j))
    }

    /// Creates a new list of package flags, initialized to the given value.
    pub fn new(bit: bool, size: usize) -> (list: Self)
        requires
            size * size <= usize::MAX / 8,
        ensures
            list.wf(),
            list.size() == size,
            forall|i: int, j: int| 0 <= i < size && 0 <= j < size ==> #[trigger] list.at(i, j) == bit,
    {
        let list = PackageFlagsList { data: Bits::repeat(bit, size * size), stride: size };
        proof {
            assert forall|i: int, j: int| 0 <= i < size && 0 <= j < size implies #[trigger] list.at(i, j)
                == bit by {
                lemma_cell(size as int, i, j);
            }
        }
        list
    }

    /// Initializes an edit of the flags for the given package, allowing for the use of flags with
    /// smaller indices during the edit.
    pub fn edit(&mut self, index: usize) -> (edit: PackageFlagsListEdit<'_>)
        requires
            old(self).wf(),
            index < old(self).size(),
        ensures
            *edit.list == *old(self),
            *final(edit.list) == *final(self),
            edit.index == index,
    {
        PackageFlagsListEdit { list: self, index }
    }

    /// Gets the flags associated with the given package at the provided index.
    pub fn get(&self, index: usize) -> (row: Bits)
        requires
            self.wf(),
            index < self.size(),
        ensures
            row@ == self.row(index as int),
    {
        proof {
            lemma_cell(self.stride as int, index as int, 0);
            self.lemma_row_is_short();
        }
        let base = index * self.stride;
        let row = self.data.slice(base, base + self.stride);
        assert(row@ =~= self.row(index as int));
        row
    }

    /// Whether the flag for package `at` is set in the row of package `index`.
    pub fn is_set(&self, index: usize, at: usize) -> (set: bool)
        requires
            self.wf(),
            index < self.size(),
            at < self.size(),
        ensures
            set == self.at(index as int, at as int),
    {
        proof {
            lemma_cell(self.stride as int, index as int, at as int);
        }
        self.data.get(index * self.stride + at)
    }

    /// Sets every flag that is set in another list of the same size.
    pub fn bitor_assign(&mut self, rhs: &PackageFlagsList)
        requires
            old(self).wf(),
            rhs.wf(),
            rhs.size() == old(self).size(),
        ensures
            final(self).wf(),
            final(self).size() == old(self).size(),
            forall|i: int, j: int|
                0 <= i < old(self).size() && 0 <= j < old(self).size() ==> #[trigger] final(self).at(i, j)
                    == (old(self).at(i, j) || rhs.at(i, j)),
    {
        let len = self.data.len();
        self.data.or_slice(0, len, &rhs.data);
        proof {
            assert forall|i: int, j: int|
                0 <= i < old(self).size() && 0 <= j < old(self).size() implies #[trigger] self.at(i, j) == (
            old(self).at(i, j) || rhs.at(i, j)) by {
                lemma_cell(self.stride as int, i, j);
            }
        }
    }

    /// Sets every flag of one row that is set in another row.
    fn or_row(&mut self, to: usize, from: usize)
        requires
            old(self).wf(),
            to < old(self).size(),
            from < old(self).size(),
        ensures
            final(self).wf(),
            final(self).size() == old(self).size(),
            forall|i: int, j: int|
                0 <= i < old(self).size() && 0 <= j < old(self).size() ==> #[trigger] final(self).at(i, j)
                    == (old(self).at(i, j) || (i == to && old(self).at(from as int, j))),
    {
        let row = self.get(from);
        proof {
            lemma_cell(self.stride as int, to as int, 0);
        }
        let base = to * self.stride;
        self.data.or_slice(base, base + self.stride, &row);
        proof {
            assert forall|i: int, j: int|
                0 <= i < old(self).size() && 0 <= j < old(self).size() implies #[trigger] self.at(i, j) == (
            old(self).at(i, j) || (i == to && old(self).at(from as int, j))) by {
                lemma_cell(self.stride as int, i, j);
                if i != to {
                    lemma_cells_apart(self.stride as int, i, j, to as int);
                }
            }
        }
    }

    /// Changes one flag.
    fn set(&mut self, index: usize, at: usize, value: bool)
        requires
            old(self).wf(),
            index < old(self).size(),
            at < old(self).size(),
        ensures
            final(self).wf(),
            final(self).size() == old(self).size(),
            forall|i: int, j: int|
                0 <= i < old(self).size() && 0 <= j < old(self).size() ==> #[trigger] final(self).at(i, j)
                    == (if i == index && j == at { value } else { old(self).at(i, j) }),
    {
        proof {
            lemma_cell(self.stride as int, index as int, at as int);
        }
        self.data.set(index * self.stride + at, value);
        proof {
            assert forall|i: int, j: int|
                0 <= i < old(self).size() && 0 <= j < old(self).size() implies #[trigger] self.at(i, j) == (
            if i == index && j == at { value } else { old(self).at(i, j) }) by {
                lemma_cell(self.stride as int, i, j);
                if i != index {
                    lemma_cells_apart(self.stride as int, i, j, index as int);
                }
            }
        }
    }
}

/// Represents an ongoing edit operation to a package flags list. This allows for editing one row of
/// the list while referencing other rows.
pub struct PackageFlagsListEdit<'a> {
    /// The list that is being edited.
    pub list: &'a mut PackageFlagsList,
    /// The package whose row is being edited.
    pub index: usize,
}

impl<'a> PackageFlagsListEdit<'a> {
    /// Whether the edited row is one of the list.
    pub open spec fn wf(self) -> bool {
        self.list.wf() && self.index < self.list.size()
    }

    /// Changes one flag of the edited row.
    pub fn set(&mut self, at: usize, value: bool)
        requires
            old(self).wf(),
            at < old(self).list.size(),
        ensures
            final(self).wf(),
            final(self).index == old(self).index,
            final(self).list.size() == old(self).list.size(),
            *final(final(self).list) == *final(old(self).list),
            forall|i: int, j: int|
                0 <= i < old(self).list.size() && 0 <= j < old(self).list.size()
                    ==> #[trigger] final(self).list.at(i, j) == (if i == old(self).index && j == at {
                    value
                } else {
                    old(self).list.at(i, j)
                }),
    {
        self.list.set(self.index, at, value);
    }

    /// Computes the bitwise or into the edited row with the package at the given index.
    pub fn or_with(&mut self, index: usize)
        requires
            old(self).wf(),
            index < old(self).index,
        ensures
            final(self).wf(),
            final(self).index == old(self).index,
            final(self).list.size() == old(self).list.size(),
            *final(final(self).list) == *final(old(self).list),
            forall|i: int, j: int|
                0 <= i < old(self).list.size() && 0 <= j < old(self).list.size()
                    ==> #[trigger] final(self).list.at(i, j) == (old(self).list.at(i, j) || (i == old(
                    self,
                ).index && old(self).list.at(index as int, j))),
    {
        self.list.or_row(self.index, index);
    }

    /// Computes the bitwise or of the edited row with the package into the given index.
    pub fn or_into(&mut self, index: usize)
        requires
            old(self).wf(),
            index < old(self).index,
        ensures
            final(self).wf(),
            final(self).index == old(self).index,
            final(self).list.size() == old(self).list.size(),
            *final(final(self).list) == *final(old(self).list),
            forall|i: int, j: int|
                0 <= i < old(self).list.size() && 0 <= j < old(self).list.size()
                    ==> #[trigger] final(self).list.at(i, j) == (old(self).list.at(i, j) || (i == index
                    && old(self).list.at(old(self).index as int, j))),
    {
        self.list.or_row(index, self.index);
    }
}

/// Sets the flag of a package in its own row, and every flag of its row that is set in the rows of the
/// packages at the given smaller indices.
pub fn gather_rows(list: &mut PackageFlagsList, index: usize, others: &Vec<usize>)
    requires
        old(list).wf(),
        index < old(list).size(),
        forall|k: int| 0 <= k < others@.len() ==> (#[trigger] others@[k]) < index,
    ensures
        final(list).wf(),
        final(list).size() == old(list).size(),
        forall|i: int, j: int|
            0 <= i < old(list).size() && 0 <= j < old(list).size() ==> #[trigger] final(list).at(i, j) == (
            old(list).at(i, j) || (i == index && (j == index || exists|k: int|
                0 <= k < others@.len() && old(list).at(#[trigger] others@[k] as int, j)))),
{
    let ghost start = *list;
    let mut edit = list.edit(index);
    let ghost end = *final(edit.list);
    edit.set(index, true);
    for k in 0..others.len()
        invariant
            *final(edit.list) == end,
            edit.wf(),
            edit.index == index,
            edit.list.size() == start.size(),
            forall|l: int| 0 <= l < others@.len() ==> (#[trigger] others@[l]) < index,
            forall|i: int, j: int|
                0 <= i < start.size() && 0 <= j < start.size() ==> #[trigger] edit.list.at(i, j) == (start.at(
                    i,
                    j,
                ) || (i == index && (j == index || exists|l: int|
                    0 <= l < k && start.at(#[trigger] others@[l] as int, j)))),
    {
        let ghost before = *edit.list;
        edit.or_with(others[k]);
        proof {
            assert forall|i: int, j: int|
                0 <= i < start.size() && 0 <= j < start.size() implies #[trigger] edit.list.at(i, j) == (
            start.at(i, j) || (i == index && (j == index || exists|l: int|
                0 <= l < k + 1 && start.at(#[trigger] others@[l] as int, j)))) by {
                assert(before.at(i, j) == (start.at(i, j) || (i == index && (j == index || exists|l: int|
                    0 <= l < k && start.at(#[trigger] others@[l] as int, j)))));
                assert(before.at(others@[k as int] as int, j) == start.at(others@[k as int] as int, j));
            }
        }
    }
}

/// Sets the flag of a package in its own row, and then every flag that is set in its row in the rows
/// of the packages at the given smaller indices.
pub fn spread_row(list: &mut PackageFlagsList, index: usize, others: &Vec<usize>)
    requires
        old(list).wf(),
        index < old(list).size(),
        forall|k: int| 0 <= k < others@.len() ==> (#[trigger] others@[k]) < index,
    ensures
        final(list).wf(),
        final(list).size() == old(list).size(),
        forall|i: int, j: int|
            0 <= i < old(list).size() && 0 <= j < old(list).size() ==> #[trigger] final(list).at(i, j) == (
            old(list).at(i, j) || ((i == index || others@.contains(i as usize)) && (j == index || old(list).at(
                index as int,
                j,
            )))),
{
    let ghost start = *list;
    let mut edit = list.edit(index);
    let ghost end = *final(edit.list);
    edit.set(index, true);
    for k in 0..others.len()
        invariant
            *final(edit.list) == end,
            edit.wf(),
            edit.index == index,
            edit.list.size() == start.size(),
            forall|l: int| 0 <= l < others@.len() ==> (#[trigger] others@[l]) < index,
            forall|i: int, j: int|
                0 <= i < start.size() && 0 <= j < start.size() ==> #[trigger] edit.list.at(i, j) == (start.at(
                    i,
                    j,
                ) || ((i == index || exists|l: int| 0 <= l < k && #[trigger] others@[l] == i) && (j == index
                    || start.at(index as int, j)))),
    {
        let ghost before = *edit.list;
        edit.or_into(others[k]);
        proof {
            assert forall|i: int, j: int|
                0 <= i < start.size() && 0 <= j < start.size() implies #[trigger] edit.list.at(i, j) == (
            start.at(i, j) || ((i == index || exists|l: int| 0 <= l < k + 1 && #[trigger] others@[l] == i) && (
            j == index || start.at(index as int, j)))) by {
                assert(before.at(i, j) == (start.at(i, j) || ((i == index || exists|l: int|
                    0 <= l < k && #[trigger] others@[l] == i) && (j == index || start.at(index as int, j)))));
                assert(before.at(index as int, j) == (j == index || start.at(index as int, j)));
                assert(others@[k as int] == others@[k as int]);
            }
        }
    }
    proof {
        assert forall|i: int, j: int| 0 <= i < start.size() && 0 <= j < start.size() implies #[trigger] edit.list.at(
            i,
            j,
        ) == (start.at(i, j) || ((i == index || others@.contains(i as usize)) && (j == index || start.at(
            index as int,
            j,
        )))) by {
            if exists|l: int| 0 <= l < others@.len() && #[trigger] others@[l] == i {
                let l = choose|l: int| 0 <= l < others@.len() && #[trigger] others@[l] == i;
                assert(others@[l] == i as usize);
            }
        }
    }
}

} // verus!
