use vstd::cell::invcell::InvCell;
use vstd::predicate::Predicate;
use vstd::prelude::*;
use vstd::string::*;
use vstd::utf8::encode_utf8;

verus! {

/// The byte that ends a line.
pub const LINE_FEED: u8 = 10;

/// The offsets of the line feeds among `bytes`, in ascending order.
pub open spec fn line_breaks(bytes: Seq<u8>) -> Seq<usize>
    decreases bytes.len(),
{
    if bytes.len() == 0 {
        Seq::empty()
    } else {
        let before = line_breaks(bytes.drop_last());
        if bytes.last() == LINE_FEED {
            before.push((bytes.len() - 1) as usize)
        } else {
            before
        }
    }
}

/// The line that the byte at `offset` is on, counted from one: one more than
/// the number of line feeds before it.
pub open spec fn line_of(bytes: Seq<u8>, offset: int) -> nat {
    line_breaks(bytes.take(offset)).len() + 1
}

/// The offset at which the line of the byte at `offset` begins: just after
/// the last line feed before it, or zero on the first line.
pub open spec fn line_start(bytes: Seq<u8>, offset: int) -> int {
    let before = line_breaks(bytes.take(offset));
    if before.len() == 0 {
        0
    } else {
        before.last() + 1
    }
}

/// The column of the byte at `offset`: its distance in bytes from the
/// beginning of its line.
pub open spec fn column_of(bytes: Seq<u8>, offset: int) -> int {
    offset - line_start(bytes, offset)
}

/// The line feeds that [`line_breaks`] lists are all of them, each once, in
/// ascending order.
pub proof fn lemma_line_breaks(bytes: Seq<u8>)
    requires
        bytes.len() <= usize::MAX,
    ensures
        line_breaks(bytes).len() <= bytes.len(),
        forall|j: int|
            0 <= j < line_breaks(bytes).len() ==> (#[trigger] line_breaks(bytes)[j]) < bytes.len()
                && bytes[line_breaks(bytes)[j] as int] == LINE_FEED,
        forall|j: int, k: int|
            0 <= j < k < line_breaks(bytes).len() ==> line_breaks(bytes)[j] < line_breaks(bytes)[k],
        forall|i: int|
            0 <= i < bytes.len() && bytes[i] == LINE_FEED ==> exists|j: int|
                0 <= j < line_breaks(bytes).len() && line_breaks(bytes)[j] == i,
    decreases bytes.len(),
{
    if bytes.len() > 0 {
        let shorter = bytes.drop_last();
        let before = line_breaks(shorter);
        lemma_line_breaks(shorter);
        assert forall|i: int| 0 <= i < bytes.len() && bytes[i] == LINE_FEED implies exists|j: int|
            0 <= j < line_breaks(bytes).len() && line_breaks(bytes)[j] == i by {
            if i < shorter.len() {
                assert(shorter[i] == bytes[i]);
                let j = choose|j: int| 0 <= j < before.len() && before[j] == i;
                assert(line_breaks(bytes)[j] == i);
            } else {
                assert(line_breaks(bytes)[before.len() as int] == i);
            }
        }
    }
}

/// The line feeds before `offset` are the first `k` of all line feeds, where
/// `k` parts those before `offset` from those at or after it.
pub proof fn lemma_line_breaks_before(bytes: Seq<u8>, offset: int, k: int)
    requires
        bytes.len() <= usize::MAX,
        0 <= offset <= bytes.len(),
        0 <= k <= line_breaks(bytes).len(),
        forall|j: int| 0 <= j < k ==> (#[trigger] line_breaks(bytes)[j]) < offset,
        forall|j: int| k <= j < line_breaks(bytes).len() ==> (#[trigger] line_breaks(bytes)[j]) >= offset,
    ensures
        line_breaks(bytes.take(offset)) == line_breaks(bytes).take(k),
    decreases bytes.len(),
{
    let all = line_breaks(bytes);
    lemma_line_breaks(bytes);
    if offset == bytes.len() {
        assert(bytes.take(offset) =~= bytes);
        if k < all.len() {
            assert(all[k] >= offset);
        }
        assert(all.take(k) =~= all);
    } else {
        let shorter = bytes.drop_last();
        let before = line_breaks(shorter);
        assert(bytes.take(offset) =~= shorter.take(offset));
        if bytes.last() == LINE_FEED {
            assert(all[all.len() - 1] == bytes.len() - 1);
            assert forall|j: int| 0 <= j < k implies (#[trigger] before[j]) < offset by {
                assert(all[j] < offset);
            }
            assert forall|j: int| k <= j < before.len() implies (#[trigger] before[j]) >= offset by {
                assert(all[j] >= offset);
            }
            lemma_line_breaks_before(shorter, offset, k);
            assert(before.take(k) =~= all.take(k));
        } else {
            lemma_line_breaks_before(shorter, offset, k);
        }
    }
}

/// What the cell of a [`LookupTable`] may hold: nothing yet, or the line
/// feeds of the text.
pub struct LineIndex {
    pub bytes: Seq<u8>,
}

impl Predicate<Option<Vec<usize>>> for LineIndex {
    open spec fn predicate(&self, v: Option<Vec<usize>>) -> bool {
        match v {
            None => true,
            Some(indices) => indices@ == line_breaks(self.bytes),
        }
    }
}

/// An index from byte offsets to lines and columns of one source text. The
/// text is scanned for line feeds when the index is first asked, and the
/// result is kept for every later question.
pub struct LookupTable<'a> {
    src: &'a str,
    line_br_indices: InvCell<Option<Vec<usize>>, LineIndex>,
}

impl<'a> LookupTable<'a> {
    #[verifier::type_invariant]
    spec fn inv(self) -> bool {
        self.line_br_indices.predicate() == (LineIndex { bytes: encode_utf8(self.src@) })
    }

    /// The characters of the text that the index is for.
    pub closed spec fn source(&self) -> Seq<char> {
        self.src@
    }

    pub fn new(src: &'a str) -> (table: Self)
        ensures
            table.source() == src@,
    {
        Self {
            src,
            line_br_indices: InvCell::new(None, Ghost(LineIndex { bytes: encode_utf8(src@) })),
        }
    }

    /// Takes the offsets of the line feeds out of the cell, or finds them if
    /// the cell is empty. The caller puts them back with [`Self::keep`].
    fn take_or_init(&self) -> (indices: Vec<usize>)
        ensures
            indices@ == line_breaks(encode_utf8(self.source())),
    {
        proof {
            use_type_invariant(self);
        }
        match self.line_br_indices.replace(None) {
            Some(indices) => indices,
            None => {
                let bytes = self.src.as_bytes();
                let mut indices: Vec<usize> = Vec::new();
                let mut i: usize = 0;
                while i < bytes.len()
                    invariant
                        0 <= i <= bytes.len(),
                        indices@ == line_breaks(bytes@.take(i as int)),
                    decreases bytes.len() - i,
                {
                    proof {
                        assert(bytes@.take(i + 1).drop_last() =~= bytes@.take(i as int));
                    }
                    if bytes[i] == LINE_FEED {
                        indices.push(i);
                    }
                    i = i + 1;
                }
                proof {
                    assert(bytes@.take(i as int) =~= bytes@);
                }
                indices
            },
        }
    }

    /// Stores the offsets of the line feeds for the next question.
    fn keep(&self, indices: Vec<usize>)
        requires
            indices@ == line_breaks(encode_utf8(self.source())),
    {
        proof {
            use_type_invariant(self);
        }
        self.line_br_indices.set(Some(indices));
    }

    /// The offsets of the line feeds of the text, in ascending order.
    pub fn get_or_init(&self) -> (indices: Vec<usize>)
        ensures
            indices@ == line_breaks(encode_utf8(self.source())),
    {
        let indices = self.take_or_init();
        let copy = indices.clone();
        self.keep(indices);
        copy
    }

    /// The line, counted from one, and the column, counted in bytes from the
    /// beginning of the line, of the byte at `offset`. The end of the text
    /// is a place too; an offset past it has none. Nor has `usize::MAX`,
    /// whose line number might not fit.
    pub fn line_col(&self, offset: usize) -> (r: Option<(usize, usize)>)
        ensures
            r is Some <==> offset <= encode_utf8(self.source()).len() && offset < usize::MAX,
            r matches Some((line, column)) ==> line == line_of(
                encode_utf8(self.source()),
                offset as int,
            ) && column == column_of(encode_utf8(self.source()), offset as int),
    {
        let bytes = self.src.as_bytes();
        if offset > bytes.len() || offset == usize::MAX {
            return None;
        }
        let indices = self.take_or_init();
        proof {
            lemma_line_breaks(bytes@);
        }
        let mut lo: usize = 0;
        let mut hi: usize = indices.len();
        while lo < hi
            invariant
                0 <= lo <= hi <= indices.len(),
                forall|j: int, k: int| 0 <= j < k < indices.len() ==> indices[j] < indices[k],
                forall|j: int| 0 <= j < lo ==> (#[trigger] indices[j]) < offset,
                forall|j: int| hi <= j < indices.len() ==> (#[trigger] indices[j]) >= offset,
            decreases hi - lo,
        {
            let mid = lo + (hi - lo) / 2;
            if indices[mid] < offset {
                lo = mid + 1;
            } else {
                hi = mid;
            }
        }
        proof {
            lemma_line_breaks_before(bytes@, offset as int, lo as int);
            lemma_line_breaks(bytes@.take(offset as int));
        }
        let column = if lo == 0 {
            offset
        } else {
            offset - (indices[lo - 1] + 1)
        };
        self.keep(indices);
        Some((lo + 1, column))
    }
}

} // verus!
