//! The puzzle loader: parses a fixed-format 81-character puzzle description,
//! consumed as a byte stream, into the set of initial given cell values.
//!
//! After stripping every byte outside the allowed set `{'-', '1'..'9'}`,
//! exactly 81 bytes must remain; `'-'` denotes an unset cell and a digit a
//! given value. The cell position is the byte's offset in the filtered
//! stream.

use vstd::prelude::*;
use crate::cell::Cell;

verus! {

/// One given cell produced by the loader: the linear index of the cell and
/// the value the puzzle assigns to it.
#[derive(Copy, Clone, PartialEq, Eq, Structural, Debug)]
pub struct BoardValue {
    pub index: usize,
    pub value: u8,
}

/// What went wrong while loading a puzzle description.
#[derive(PartialEq, Eq, Debug)]
pub enum LoadErrorKind {
    /// The source could not be read; carries the reader's own message.
    Io(String),
    /// The source holds a byte outside the single-byte (ASCII) range.
    NotAscii,
    /// After filtering, the description did not have exactly 81 meaningful
    /// bytes; carries the count actually found.
    InvalidSize(usize),
}

/// A failed load attempt: which file was being loaded, and why it failed.
#[derive(PartialEq, Eq, Debug)]
pub struct InvalidBoardError {
    pub filename: String,
    pub kind: LoadErrorKind,
}

/// Names the file a load error will speak of.
pub struct InvalidBoardErrorBuilder {
    filename: String,
}

impl InvalidBoardError {
    /// Starts building a load error for the named file.
    pub fn for_file(fname: &str) -> (r: InvalidBoardErrorBuilder)
        ensures
            r.spec_filename() == fname@,
    {
        InvalidBoardErrorBuilder { filename: fname.to_owned() }
    }
}

impl InvalidBoardErrorBuilder {
    /// The file whose load error is being built.
    pub closed spec fn spec_filename(&self) -> Seq<char> {
        self.filename@
    }

    /// The source could not be read; `msg` is the reader's own description.
    pub fn io_error(self, msg: String) -> (r: InvalidBoardError)
        ensures
            r.filename@ == self.spec_filename(),
            r.kind matches LoadErrorKind::Io(m) && m@ == msg@,
    {
        InvalidBoardError { filename: self.filename, kind: LoadErrorKind::Io(msg) }
    }

    /// The source holds non-ASCII content.
    pub fn not_ascii(self) -> (r: InvalidBoardError)
        ensures
            r.filename@ == self.spec_filename(),
            r.kind == LoadErrorKind::NotAscii,
    {
        InvalidBoardError { filename: self.filename, kind: LoadErrorKind::NotAscii }
    }

    /// The filtered description had `size` meaningful bytes instead of 81.
    pub fn invalid_size(self, size: usize) -> (r: InvalidBoardError)
        ensures
            r.filename@ == self.spec_filename(),
            r.kind == LoadErrorKind::InvalidSize(size),
    {
        InvalidBoardError { filename: self.filename, kind: LoadErrorKind::InvalidSize(size) }
    }
}

/// A byte is meaningful to the puzzle format: `'-'` or a digit `'1'..'9'`.
pub open spec fn spec_is_valid_char(c: u8) -> bool {
    c == 45 || (49 <= c && c <= 57)
}

/// Whether a byte of the description is meaningful: `'-'` or `'1'..='9'`.
/// Any other byte is silently discarded before the size check.
pub fn is_valid_char(c: u8) -> (r: bool)
    ensures
        r == spec_is_valid_char(c),
{
    c == 45 || (49 <= c && c <= 57)
}

/// Every byte of the source is single-byte (ASCII) text.
pub open spec fn all_ascii(s: Seq<u8>) -> bool {
    forall|i: int| 0 <= i < s.len() ==> s[i] < 128
}

/// The description restricted to its meaningful bytes, in order.
pub open spec fn spec_filtered(s: Seq<u8>) -> Seq<u8>
    decreases s.len(),
{
    if s.len() == 0 {
        Seq::empty()
    } else {
        spec_filtered(s.drop_last()) + if spec_is_valid_char(s.last()) {
            seq![s.last()]
        } else {
            Seq::empty()
        }
    }
}

/// The given cells encoded by a filtered description: one entry per digit
/// byte, carrying its offset and its numeric value.
pub open spec fn spec_entries(f: Seq<u8>) -> Seq<BoardValue>
    decreases f.len(),
{
    if f.len() == 0 {
        Seq::empty()
    } else {
        spec_entries(f.drop_last()) + if f.last() == 45 {
            Seq::empty()
        } else {
            seq![BoardValue { index: (f.len() - 1) as usize, value: (f.last() - 48) as u8 }]
        }
    }
}

/// The board described by a filtered 81-byte description: every digit byte
/// becomes a given cell holding its value, every `'-'` byte an empty cell,
/// at the cell whose linear index is the byte's offset.
pub open spec fn spec_board_of(f: Seq<u8>) -> Seq<Cell> {
    Seq::new(
        81,
        |i: int|
            if f[i] == 45 {
                Cell::Empty
            } else {
                Cell::Static((f[i] - 48) as u8)
            },
    )
}

/// Every byte of a filtered description is meaningful.
pub proof fn lemma_filtered_valid(s: Seq<u8>)
    ensures
        forall|i: int| 0 <= i < spec_filtered(s).len() ==> spec_is_valid_char(
            #[trigger] spec_filtered(s)[i],
        ),
    decreases s.len(),
{
    if s.len() > 0 {
        lemma_filtered_valid(s.drop_last());
        let pre = spec_filtered(s.drop_last());
        let e = spec_filtered(s);
        if spec_is_valid_char(s.last()) {
            assert(forall|i: int| 0 <= i < pre.len() ==> #[trigger] e[i] == pre[i]);
            assert(e[e.len() - 1] == s.last());
        } else {
            assert(e =~= pre);
        }
    }
}

/// Entries carry strictly increasing indices below the length of the
/// filtered description, and values in 1..=9.
pub proof fn lemma_entries_wf(f: Seq<u8>)
    requires
        f.len() <= 81,
        forall|i: int| 0 <= i < f.len() ==> spec_is_valid_char(#[trigger] f[i]),
    ensures
        forall|j: int| 0 <= j < spec_entries(f).len() ==> (#[trigger] spec_entries(f)[j]).index
            < f.len(),
        forall|j: int| 0 <= j < spec_entries(f).len() ==> 1 <= (#[trigger] spec_entries(f)[j]).value
            <= 9,
        forall|j1: int, j2: int| 0 <= j1 < j2 < spec_entries(f).len() ==> (
        #[trigger] spec_entries(f)[j1]).index < (#[trigger] spec_entries(f)[j2]).index,
    decreases f.len(),
{
    if f.len() > 0 {
        let g = f.drop_last();
        let pre = spec_entries(g);
        let e = spec_entries(f);
        assert(forall|i: int| 0 <= i < g.len() ==> spec_is_valid_char(#[trigger] g[i]));
        lemma_entries_wf(g);
        if f.last() == 45 {
            assert(e =~= pre);
        } else {
            assert(e.len() == pre.len() + 1);
            assert(forall|j: int| 0 <= j < pre.len() ==> #[trigger] e[j] == pre[j]);
            assert(e[e.len() - 1] == (BoardValue {
                index: (f.len() - 1) as usize,
                value: (f.last() - 48) as u8,
            }));
            assert(spec_is_valid_char(f.last()));
        }
    }
}

/// Which cells the entries describe: a digit byte at offset `i` yields
/// exactly one entry with index `i` and the digit's value, and a `'-'` byte
/// yields none.
pub proof fn lemma_entries_complete(f: Seq<u8>, i: int)
    requires
        f.len() <= 81,
        forall|j: int| 0 <= j < f.len() ==> spec_is_valid_char(#[trigger] f[j]),
        0 <= i < f.len(),
    ensures
        f[i] == 45 ==> forall|j: int| 0 <= j < spec_entries(f).len() ==> (
        #[trigger] spec_entries(f)[j]).index != i,
        f[i] != 45 ==> exists|j: int| 0 <= j < spec_entries(f).len() && #[trigger] spec_entries(
            f,
        )[j] == (BoardValue { index: i as usize, value: (f[i] - 48) as u8 }),
    decreases f.len(),
{
    lemma_entries_wf(f);
    let e = spec_entries(f);
    if i == f.len() - 1 {
        if f[i] != 45 {
            assert(e[e.len() - 1] == (BoardValue { index: i as usize, value: (f[i] - 48) as u8 }));
        } else {
            let pre = spec_entries(f.drop_last());
            assert(e =~= pre);
            assert(forall|i2: int| 0 <= i2 < f.drop_last().len() ==> spec_is_valid_char(
                #[trigger] f.drop_last()[i2],
            ));
            lemma_entries_wf(f.drop_last());
            assert(forall|j: int| 0 <= j < e.len() ==> (#[trigger] e[j]).index < f.len() - 1);
        }
    } else {
        let g = f.drop_last();
        let pre = spec_entries(g);
        assert(forall|j: int| 0 <= j < g.len() ==> spec_is_valid_char(#[trigger] g[j]));
        lemma_entries_complete(g, i);
        assert(forall|j: int| 0 <= j < pre.len() ==> #[trigger] e[j] == pre[j]);
        if f[i] != 45 {
            assert(g[i] == f[i]);
            let j = choose|j: int|
                0 <= j < pre.len() && #[trigger] pre[j] == (BoardValue {
                    index: i as usize,
                    value: (g[i] - 48) as u8,
                });
            assert(e[j] == (BoardValue { index: i as usize, value: (f[i] - 48) as u8 }));
        } else {
            if f.last() != 45 {
                assert(e.len() == pre.len() + 1);
                assert((e[e.len() - 1]).index == f.len() - 1);
                assert(forall|j: int| 0 <= j < e.len() ==> (#[trigger] e[j]).index != i);
            } else {
                assert(e =~= pre);
            }
        }
    }
}

/// Parses a puzzle description into its given cell values. `filename` is
/// only recorded in errors, so that a failed load names the file it was
/// loading. The source must be ASCII, and after dropping every byte outside
/// `{'-', '1'..'9'}` exactly 81 bytes must remain; otherwise the matching
/// error is returned and no values are produced.
pub fn load(filename: &str, contents: &[u8]) -> (r: Result<Vec<BoardValue>, InvalidBoardError>)
    ensures
        match r {
            Ok(values) => {
                &&& all_ascii(contents@)
                &&& spec_filtered(contents@).len() == 81
                &&& values@ == spec_entries(spec_filtered(contents@))
            },
            Err(e) => {
                &&& e.filename@ == filename@
                &&& match e.kind {
                    LoadErrorKind::NotAscii => !all_ascii(contents@),
                    LoadErrorKind::InvalidSize(n) => all_ascii(contents@) && spec_filtered(
                        contents@,
                    ).len() == n && n != 81,
                    LoadErrorKind::Io(_) => false,
                }
            },
        },
{
    let n = contents.len();

    let mut i: usize = 0;
    while i < n
        invariant
            n == contents@.len(),
            i <= n,
            forall|j: int| 0 <= j < i ==> contents@[j] < 128,
        decreases n - i,
    {
        if contents[i] >= 128 {
            return Err(InvalidBoardError::for_file(filename).not_ascii());
        }
        i += 1;
    }

    let mut kept: Vec<u8> = Vec::new();
    let mut i: usize = 0;
    while i < n
        invariant
            n == contents@.len(),
            i <= n,
            kept@ == spec_filtered(contents@.take(i as int)),
            forall|j: int| 0 <= j < kept@.len() ==> spec_is_valid_char(#[trigger] kept@[j]),
        decreases n - i,
    {
        proof {
            assert(contents@.take(i as int + 1).drop_last() =~= contents@.take(i as int));
            assert(contents@.take(i as int + 1).last() == contents@[i as int]);
        }
        let c = contents[i];
        if is_valid_char(c) {
            kept.push(c);
        }
        i += 1;
    }
    proof {
        assert(contents@.take(n as int) =~= contents@);
    }

    if kept.len() != 81 {
        return Err(InvalidBoardError::for_file(filename).invalid_size(kept.len()));
    }

    let mut result: Vec<BoardValue> = Vec::new();
    let mut i: usize = 0;
    while i < 81
        invariant
            kept@.len() == 81,
            forall|j: int| 0 <= j < kept@.len() ==> spec_is_valid_char(#[trigger] kept@[j]),
            i <= 81,
            result@ == spec_entries(kept@.take(i as int)),
        decreases 81 - i,
    {
        proof {
            assert(kept@.take(i as int + 1).drop_last() =~= kept@.take(i as int));
            assert(kept@.take(i as int + 1).last() == kept@[i as int]);
        }
        let c = kept[i];
        if c != 45 {
            result.push(BoardValue { index: i, value: c - 48 });
        }
        i += 1;
    }
    proof {
        assert(kept@.take(81) =~= kept@);
    }

    Ok(result)
}

} // verus!
