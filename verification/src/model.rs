use vstd::prelude::*;
use vstd::string::{StringExecFns, StringSliceAdditionalSpecFns};
use vstd::utf8::valid_utf8;
use crate::shape::{checked_numel, prefix_products_fit, shape_product};
use crate::tensor::Tensor;

verus! {

/// Why a model could not be loaded.
#[derive(Debug)]
pub enum ModelError {
    FileNotFound(String),
    InvalidFormat(String),
    InvalidHeader(String),
    TensorShapeMismatch { name: String, expected: usize, got: usize },
}

/// [`ModelError`] with its strings seen as character sequences.
pub enum ModelErrorView {
    FileNotFound(Seq<char>),
    InvalidFormat(Seq<char>),
    InvalidHeader(Seq<char>),
    TensorShapeMismatch { name: Seq<char>, expected: usize, got: usize },
}

impl View for ModelError {
    type V = ModelErrorView;

    open spec fn view(&self) -> ModelErrorView {
        match self {
            ModelError::FileNotFound(m) => ModelErrorView::FileNotFound(m@),
            ModelError::InvalidFormat(m) => ModelErrorView::InvalidFormat(m@),
            ModelError::InvalidHeader(m) => ModelErrorView::InvalidHeader(m@),
            ModelError::TensorShapeMismatch { name, expected, got } => ModelErrorView::TensorShapeMismatch {
                name: name@,
                expected: *expected,
                got: *got,
            },
        }
    }
}

/// What the JSON header of a SafeTensors file says of one tensor: its element
/// type, its shape and the byte range of its data after the header.
pub struct TensorInfo {
    pub dtype: String,
    pub shape: Vec<usize>,
    pub data_offsets: (usize, usize),
}

/// One entry of the header, named; `info` holds why the entry could not be
/// read as a [`TensorInfo`] when it could not.
pub struct HeaderEntry {
    pub name: String,
    pub info: Result<TensorInfo, String>,
}

/// A tensor read from the file: its name, its shape and its elements as the
/// little-endian 32-bit words that encode them.
pub struct LoadedTensor {
    pub name: String,
    pub tensor: Tensor<u32>,
}

/// The reader of the SafeTensors container: an 8-byte little-endian header
/// length, a JSON header of that many bytes, then the tensor data.
pub struct SafeTensorsLoader;

/// The unsigned integer that `bytes` encode, least significant byte first.
pub open spec fn le_value(bytes: Seq<u8>) -> nat
    decreases bytes.len(),
{
    if bytes.len() == 0 {
        0
    } else {
        (bytes[0] + 256 * le_value(bytes.drop_first())) as nat
    }
}

/// The 32-bit little-endian words of `bytes`, one per whole 4-byte chunk; a
/// trailing partial chunk is ignored.
pub open spec fn le_words(bytes: Seq<u8>) -> Seq<u32> {
    Seq::new(bytes.len() / 4, |i: int| le_value(bytes.subrange(4 * i, 4 * i + 4)) as u32)
}

proof fn lemma_le_value_4(b: Seq<u8>)
    requires
        b.len() == 4,
    ensures
        le_value(b) == b[0] + 256 * (b[1] + 256 * (b[2] + 256 * b[3] as int)),
        le_value(b) < 0x1_0000_0000,
{
    assert(b.drop_first().drop_first().drop_first().drop_first() =~= Seq::<u8>::empty());
    reveal_with_fuel(le_value, 5);
}

proof fn lemma_le_value_8(b: Seq<u8>)
    requires
        b.len() == 8,
    ensures
        le_value(b) == b[0] + 256 * (b[1] + 256 * (b[2] + 256 * (b[3] + 256 * (b[4] + 256 * (b[5]
            + 256 * (b[6] + 256 * b[7] as int)))))),
{
    let t4 = b.drop_first().drop_first().drop_first().drop_first();
    assert(t4 =~= b.subrange(4, 8));
    lemma_le_value_4(t4);
    reveal_with_fuel(le_value, 5);
}

/// The little-endian 32-bit word at `bytes[start..start + 4]`.
fn le_u32_at(bytes: &[u8], start: usize) -> (w: u32)
    requires
        start + 4 <= bytes@.len(),
    ensures
        w == le_value(bytes@.subrange(start as int, start + 4)),
{
    proof {
        lemma_le_value_4(bytes@.subrange(start as int, start + 4));
    }
    let b0 = bytes[start] as u32;
    let b1 = bytes[start + 1] as u32;
    let b2 = bytes[start + 2] as u32;
    let b3 = bytes[start + 3] as u32;
    b0 + 256 * (b1 + 256 * (b2 + 256 * b3))
}

/// The little-endian 64-bit value of `bytes[0..8]`.
fn le_u64_prefix(bytes: &[u8]) -> (v: u64)
    requires
        8 <= bytes@.len(),
    ensures
        v == le_value(bytes@.subrange(0, 8)),
{
    let ghost b = bytes@.subrange(0, 8);
    proof {
        lemma_le_value_8(b);
    }
    let lo = le_u32_at(bytes, 0) as u64;
    let hi = le_u32_at(bytes, 4) as u64;
    proof {
        lemma_le_value_4(bytes@.subrange(0, 4));
        lemma_le_value_4(bytes@.subrange(4, 8));
        assert(lo + 0x1_0000_0000 * hi == le_value(b)) by (nonlinear_arith)
            requires
                lo == b[0] + 256 * (b[1] + 256 * (b[2] + 256 * b[3] as int)),
                hi == b[4] + 256 * (b[5] + 256 * (b[6] + 256 * b[7] as int)),
                le_value(b) == b[0] + 256 * (b[1] + 256 * (b[2] + 256 * (b[3] + 256 * (b[4] + 256 * (
                b[5] + 256 * (b[6] + 256 * b[7] as int)))))),
        ;
        assert(hi < 0x1_0000_0000);
        assert(lo < 0x1_0000_0000);
        assert(lo + 0x1_0000_0000 * hi <= u64::MAX) by (nonlinear_arith)
            requires
                lo < 0x1_0000_0000,
                hi < 0x1_0000_0000,
        ;
    }
    lo + 0x1_0000_0000 * hi
}

/// The whole 4-byte chunks of `bytes`, each read as a little-endian word.
pub fn decode_le_words(bytes: &[u8]) -> (words: Vec<u32>)
    ensures
        words@ == le_words(bytes@),
{
    let n = bytes.len();
    let count = n / 4;
    let mut words: Vec<u32> = Vec::with_capacity(count);
    let mut i: usize = 0;
    while i < count
        invariant
            count == bytes@.len() / 4,
            n == bytes@.len(),
            i <= count,
            words@.len() == i,
            forall|k: int| 0 <= k < i ==> #[trigger] words@[k] == le_value(bytes@.subrange(4 * k, 4 * k + 4)),
        decreases count - i,
    {
        words.push(le_u32_at(bytes, 4 * i));
        i = i + 1;
    }
    assert(words@ =~= le_words(bytes@));
    words
}

/// `std::str::from_utf8`: the bytes read as a string slice when they are valid
/// UTF-8, else the text of the decoding error. Its documentation promises `Ok`
/// exactly for valid UTF-8, with the same bytes; the error text is not stated.
#[verifier::external_body]
fn str_from_utf8(bytes: &[u8]) -> (r: Result<&str, String>)
    ensures
        r is Ok <==> valid_utf8(bytes@),
        r matches Ok(s) ==> s.spec_bytes() == bytes@,
{
    match std::str::from_utf8(bytes) {
        Ok(s) => Ok(s),
        Err(e) => Err(e.to_string()),
    }
}

/// `"Failed to parse tensor '<name>': <reason>"`.
pub open spec fn parse_failure_message(name: Seq<char>, reason: Seq<char>) -> Seq<char> {
    "Failed to parse tensor '"@ + name + "': "@ + reason
}

/// `"Unsupported dtype '<dtype>' for tensor '<name>'. Only F32 is supported."`.
pub open spec fn dtype_message(dtype: Seq<char>, name: Seq<char>) -> Seq<char> {
    "Unsupported dtype '"@ + dtype + "' for tensor '"@ + name + "'. Only F32 is supported."@
}

/// `"Invalid data offsets for tensor '<name>'"`.
pub open spec fn offsets_message(name: Seq<char>) -> Seq<char> {
    "Invalid data offsets for tensor '"@ + name + "'"@
}

/// What the loader makes of one header entry: it is skipped, it yields a
/// tensor (name, shape, words), or loading fails.
pub enum EntryOutcome {
    Skip,
    Loaded(Seq<char>, Seq<usize>, Seq<u32>),
    Failed(ModelErrorView),
}

/// The outcome of one header entry given the data that follows the header:
/// the `__metadata__` entry is skipped; an unreadable entry, an element type
/// other than `F32`, a byte range outside the data, or a shape whose element
/// count differs from the number of whole 4-byte words in the range fails;
/// anything else is loaded.
pub open spec fn entry_outcome(e: HeaderEntry, blob: Seq<u8>) -> EntryOutcome {
    if e.name@ == "__metadata__"@ {
        EntryOutcome::Skip
    } else {
        match e.info {
            Err(reason) => EntryOutcome::Failed(
                ModelErrorView::InvalidHeader(parse_failure_message(e.name@, reason@)),
            ),
            Ok(info) => {
                let (start, end) = info.data_offsets;
                if info.dtype@ != "F32"@ {
                    EntryOutcome::Failed(ModelErrorView::InvalidFormat(dtype_message(info.dtype@, e.name@)))
                } else if end > blob.len() || start > end {
                    EntryOutcome::Failed(ModelErrorView::InvalidFormat(offsets_message(e.name@)))
                } else {
                    let words = le_words(blob.subrange(start as int, end as int));
                    if shape_product(info.shape@) != words.len() {
                        EntryOutcome::Failed(
                            ModelErrorView::TensorShapeMismatch {
                                name: e.name@,
                                expected: shape_product(info.shape@) as usize,
                                got: words.len() as usize,
                            },
                        )
                    } else {
                        EntryOutcome::Loaded(e.name@, info.shape@, words)
                    }
                }
            },
        }
    }
}

/// The outcome of the entries in order: the first failure, or every loaded
/// tensor in entry order.
pub open spec fn load_outcome(entries: Seq<HeaderEntry>, blob: Seq<u8>) -> Result<
    Seq<(Seq<char>, Seq<usize>, Seq<u32>)>,
    ModelErrorView,
>
    decreases entries.len(),
{
    if entries.len() == 0 {
        Ok(Seq::empty())
    } else {
        match load_outcome(entries.drop_last(), blob) {
            Err(e) => Err(e),
            Ok(loaded) => match entry_outcome(entries.last(), blob) {
                EntryOutcome::Skip => Ok(loaded),
                EntryOutcome::Failed(e) => Err(e),
                EntryOutcome::Loaded(name, shape, words) => Ok(loaded.push((name, shape, words))),
            },
        }
    }
}

/// The name, shape and words of each loaded tensor.
pub open spec fn loaded_view(ts: Seq<LoadedTensor>) -> Seq<(Seq<char>, Seq<usize>, Seq<u32>)> {
    Seq::new(ts.len(), |i: int| (ts[i].name@, ts[i].tensor.shape@, ts[i].tensor.data@))
}

/// Entry `e` gets as far as counting its shape's elements: it is not the
/// `__metadata__` entry, it was read, its element type is `F32` and its byte
/// range lies in the data.
pub open spec fn reaches_size_check(e: HeaderEntry, blob: Seq<u8>) -> bool {
    &&& e.name@ != "__metadata__"@
    &&& e.info matches Ok(info)
    &&& info.dtype@ == "F32"@
    &&& info.data_offsets.1 <= blob.len()
    &&& info.data_offsets.0 <= info.data_offsets.1
}

/// Every entry whose shape gets counted (the entries before it all load and
/// it reaches the size check) has an element count that can be computed in a
/// `usize`.
pub open spec fn shapes_fit(entries: Seq<HeaderEntry>, blob: Seq<u8>) -> bool {
    forall|i: int|
        0 <= i < entries.len() && load_outcome(entries.take(i), blob) is Ok && reaches_size_check(
            #[trigger] entries[i],
            blob,
        ) ==> (entries[i].info matches Ok(info) && prefix_products_fit(info.shape@))
}

/// How many of the entries describe a tensor: every entry but `__metadata__`.
pub open spec fn tensor_entry_count(entries: Seq<HeaderEntry>) -> nat
    decreases entries.len(),
{
    if entries.len() == 0 {
        0
    } else {
        tensor_entry_count(entries.drop_last()) + if entries.last().name@ == "__metadata__"@ {
            0nat
        } else {
            1nat
        }
    }
}

/// `ts` holds one tensor per header entry other than `__metadata__`, in entry
/// order: each such entry was read, has element type `F32` and a byte range
/// inside `blob`; its tensor comes after those of the tensor entries before
/// it, carries the entry's name, the shape exactly as the header gives it,
/// and the little-endian words of the entry's byte range, as many as the
/// shape has elements.
pub open spec fn follows_header(ts: Seq<LoadedTensor>, entries: Seq<HeaderEntry>, blob: Seq<u8>) -> bool {
    &&& ts.len() == tensor_entry_count(entries)
    &&& forall|j: int|
        0 <= j < entries.len() && (#[trigger] entries[j]).name@ != "__metadata__"@ ==> {
            &&& entries[j].info matches Ok(info)
            &&& info.dtype@ == "F32"@
            &&& info.data_offsets.0 <= info.data_offsets.1 <= blob.len()
            &&& {
                let t = ts[tensor_entry_count(entries.take(j)) as int];
                &&& t.name@ == entries[j].name@
                &&& t.tensor.shape@ == info.shape@
                &&& t.tensor.data@ == le_words(
                    blob.subrange(info.data_offsets.0 as int, info.data_offsets.1 as int),
                )
                &&& t.tensor.data@.len() == shape_product(info.shape@)
            }
        }
}

proof fn lemma_count_grows(entries: Seq<HeaderEntry>, j: int)
    requires
        0 <= j < entries.len(),
    ensures
        tensor_entry_count(entries.take(j)) + (if entries[j].name@ == "__metadata__"@ {
            0int
        } else {
            1int
        }) <= tensor_entry_count(entries),
    decreases entries.len(),
{
    let prefix = entries.drop_last();
    if j == entries.len() - 1 {
        assert(entries.take(j) =~= prefix);
    } else {
        assert(prefix.take(j) =~= entries.take(j));
        lemma_count_grows(prefix, j);
    }
}

proof fn lemma_outcome_follows_header(
    entries: Seq<HeaderEntry>,
    blob: Seq<u8>,
    loaded: Seq<(Seq<char>, Seq<usize>, Seq<u32>)>,
)
    requires
        load_outcome(entries, blob) == Ok::<_, ModelErrorView>(loaded),
    ensures
        loaded.len() == tensor_entry_count(entries),
        forall|j: int|
            0 <= j < entries.len() && (#[trigger] entries[j]).name@ != "__metadata__"@ ==> {
                &&& entries[j].info matches Ok(info)
                &&& info.dtype@ == "F32"@
                &&& info.data_offsets.0 <= info.data_offsets.1 <= blob.len()
                &&& shape_product(info.shape@) == le_words(
                    blob.subrange(info.data_offsets.0 as int, info.data_offsets.1 as int),
                ).len()
                &&& loaded[tensor_entry_count(entries.take(j)) as int] == (
                    entries[j].name@,
                    info.shape@,
                    le_words(blob.subrange(info.data_offsets.0 as int, info.data_offsets.1 as int)),
                )
            },
    decreases entries.len(),
{
    if entries.len() > 0 {
        let prefix = entries.drop_last();
        let n = entries.len() - 1;
        match load_outcome(prefix, blob) {
            Err(e) => {},
            Ok(before) => {
                lemma_outcome_follows_header(prefix, blob, before);
                assert(entries.take(n) =~= prefix);
                assert forall|j: int|
                    0 <= j < entries.len() && (#[trigger] entries[j]).name@ != "__metadata__"@ implies {
                    &&& entries[j].info matches Ok(info)
                    &&& info.dtype@ == "F32"@
                    &&& info.data_offsets.0 <= info.data_offsets.1 <= blob.len()
                    &&& shape_product(info.shape@) == le_words(
                        blob.subrange(info.data_offsets.0 as int, info.data_offsets.1 as int),
                    ).len()
                    &&& loaded[tensor_entry_count(entries.take(j)) as int] == (
                        entries[j].name@,
                        info.shape@,
                        le_words(blob.subrange(info.data_offsets.0 as int, info.data_offsets.1 as int)),
                    )
                } by {
                    if j < n {
                        assert(prefix[j] == entries[j]);
                        assert(prefix.take(j) =~= entries.take(j));
                        lemma_count_grows(prefix, j);
                    }
                }
            },
        }
    }
}

/// The tensors the loader reads follow the header: one per entry other than
/// `__metadata__`, in entry order, each entry of element type `F32` with its
/// byte range inside the data, and each tensor with the entry's name, the
/// shape exactly as the header gives it, and the words of its byte range, as
/// many as the shape has elements.
pub proof fn lemma_loaded_tensors_follow_header(
    entries: Seq<HeaderEntry>,
    blob: Seq<u8>,
    ts: Seq<LoadedTensor>,
)
    requires
        load_outcome(entries, blob) == Ok::<_, ModelErrorView>(loaded_view(ts)),
    ensures
        follows_header(ts, entries, blob),
{
    lemma_outcome_follows_header(entries, blob, loaded_view(ts));
    assert forall|j: int|
        0 <= j < entries.len() && (#[trigger] entries[j]).name@ != "__metadata__"@ implies {
        &&& entries[j].info matches Ok(info)
        &&& info.dtype@ == "F32"@
        &&& info.data_offsets.0 <= info.data_offsets.1 <= blob.len()
        &&& {
            let t = ts[tensor_entry_count(entries.take(j)) as int];
            &&& t.name@ == entries[j].name@
            &&& t.tensor.shape@ == info.shape@
            &&& t.tensor.data@ == le_words(
                blob.subrange(info.data_offsets.0 as int, info.data_offsets.1 as int),
            )
            &&& t.tensor.data@.len() == shape_product(info.shape@)
        }
    } by {
        lemma_count_grows(entries, j);
        let k = tensor_entry_count(entries.take(j)) as int;
        assert(loaded_view(ts)[k] == (ts[k].name@, ts[k].tensor.shape@, ts[k].tensor.data@));
    }
}

/// What reading one entry came to: skipped, a shape whose element count
/// overflows a `usize`, or the entry's outcome.
enum EntryStep {
    Skip,
    Overflow,
    Done(Result<LoadedTensor, ModelError>),
}

proof fn lemma_failure_persists(entries: Seq<HeaderEntry>, blob: Seq<u8>, k: int)
    requires
        0 <= k <= entries.len(),
        load_outcome(entries.take(k), blob) is Err,
    ensures
        load_outcome(entries, blob) == load_outcome(entries.take(k), blob),
    decreases entries.len() - k,
{
    if k < entries.len() {
        assert(entries.take(k + 1).drop_last() =~= entries.take(k));
        lemma_failure_persists(entries, blob, k + 1);
    } else {
        assert(entries.take(k) =~= entries);
    }
}

impl SafeTensorsLoader {
    /// Where the JSON header lies in the file: `(8, 8 + n)` with `n` the
    /// little-endian length in the first eight bytes. Fails with
    /// `InvalidHeader("File too small")` when there are fewer than eight
    /// bytes and with `InvalidHeader("Header extends past file")` when the
    /// header would end past the file.
    pub fn header_range(buffer: &[u8]) -> (r: Result<(usize, usize), ModelError>)
        requires
            buffer@.len() >= 8 ==> 8 + le_value(buffer@.subrange(0, 8)) <= usize::MAX,
        ensures
            buffer@.len() < 8 ==> (r matches Err(e) && e@ == ModelErrorView::InvalidHeader("File too small"@)),
            buffer@.len() >= 8 ==> {
                let end = 8 + le_value(buffer@.subrange(0, 8));
                if buffer@.len() < end {
                    (r matches Err(e) && e@ == ModelErrorView::InvalidHeader("Header extends past file"@))
                } else {
                    r == Ok::<(usize, usize), ModelError>((8, end as usize))
                }
            },
    {
        if buffer.len() < 8 {
            return Err(ModelError::InvalidHeader(String::from_str("File too small")));
        }
        let header_len = le_u64_prefix(buffer) as usize;
        let header_start: usize = 8;
        let header_end = header_start + header_len;
        if buffer.len() < header_end {
            return Err(ModelError::InvalidHeader(String::from_str("Header extends past file")));
        }
        Ok((header_start, header_end))
    }

    /// The header bytes `buffer[start..end]` as text; fails with
    /// `InvalidHeader` exactly when they are not valid UTF-8.
    pub fn header_text(buffer: &[u8], start: usize, end: usize) -> (r: Result<&str, ModelError>)
        requires
            start <= end <= buffer@.len(),
        ensures
            r is Ok <==> valid_utf8(buffer@.subrange(start as int, end as int)),
            r matches Ok(s) ==> s.spec_bytes() == buffer@.subrange(start as int, end as int),
            r matches Err(e) ==> e is InvalidHeader,
    {
        let bytes = vstd::slice::slice_subrange(buffer, start, end);
        match str_from_utf8(bytes) {
            Ok(s) => Ok(s),
            Err(reason) => Err(ModelError::InvalidHeader(reason)),
        }
    }

    /// The outcome of one entry (see [`entry_outcome`]), or `Overflow` when
    /// its shape gets counted and the count does not fit in a `usize`.
    fn load_entry(entry: &HeaderEntry, data_blob: &[u8]) -> (r: EntryStep)
        ensures
            r is Overflow <==> (reaches_size_check(*entry, data_blob@) && !(entry.info matches Ok(info)
                && prefix_products_fit(info.shape@))),
            !(r is Overflow) ==> match entry_outcome(*entry, data_blob@) {
                EntryOutcome::Skip => r is Skip,
                EntryOutcome::Failed(e) => (r matches EntryStep::Done(Err(err)) && err@ == e),
                EntryOutcome::Loaded(name, shape, words) => (r matches EntryStep::Done(Ok(t)) && t.name@
                    == name && t.tensor.shape@ == shape && t.tensor.data@ == words),
            },
    {
        if entry.name == String::from_str("__metadata__") {
            return EntryStep::Skip;
        }
        match &entry.info {
            Err(reason) => {
                let msg = String::from_str("Failed to parse tensor '").concat(entry.name.as_str()).concat(
                    "': ",
                ).concat(reason.as_str());
                EntryStep::Done(Err(ModelError::InvalidHeader(msg)))
            },
            Ok(info) => {
                if !(info.dtype == String::from_str("F32")) {
                    let msg = String::from_str("Unsupported dtype '").concat(info.dtype.as_str()).concat(
                        "' for tensor '",
                    ).concat(entry.name.as_str()).concat("'. Only F32 is supported.");
                    return EntryStep::Done(Err(ModelError::InvalidFormat(msg)));
                }
                let (start, end) = info.data_offsets;
                if end > data_blob.len() || start > end {
                    let msg = String::from_str("Invalid data offsets for tensor '").concat(
                        entry.name.as_str(),
                    ).concat("'");
                    return EntryStep::Done(Err(ModelError::InvalidFormat(msg)));
                }
                let raw_bytes = vstd::slice::slice_subrange(data_blob, start, end);
                let data = decode_le_words(raw_bytes);
                let expected_size = match checked_numel(&info.shape) {
                    Some(n) => n,
                    None => {
                        return EntryStep::Overflow;
                    },
                };
                if data.len() != expected_size {
                    return EntryStep::Done(
                        Err(
                            ModelError::TensorShapeMismatch {
                                name: entry.name.clone(),
                                expected: expected_size,
                                got: data.len(),
                            },
                        ),
                    );
                }
                let shape = copy_shape(&info.shape);
                EntryStep::Done(Ok(LoadedTensor { name: entry.name.clone(), tensor: Tensor { data, shape } }))
            },
        }
    }

    /// Reads the tensors the header entries describe out of the data that
    /// follows the header, in entry order, stopping at the first entry that
    /// fails (see [`load_outcome`]). `None` when an entry's shape gets counted
    /// and its element count overflows a `usize` (see [`shapes_fit`]).
    pub fn try_load_tensors(entries: &Vec<HeaderEntry>, data_blob: &[u8]) -> (r: Option<
        Result<Vec<LoadedTensor>, ModelError>,
    >)
        ensures
            r is None <==> !shapes_fit(entries@, data_blob@),
            r matches Some(res) ==> match res {
                Ok(ts) => load_outcome(entries@, data_blob@) == Ok::<_, ModelErrorView>(loaded_view(ts@))
                    && follows_header(ts@, entries@, data_blob@),
                Err(e) => load_outcome(entries@, data_blob@) == Err::<Seq<(Seq<char>, Seq<usize>, Seq<u32>)>, _>(e@),
            },
    {
        let mut tensors: Vec<LoadedTensor> = Vec::new();
        let mut i: usize = 0;
        assert(entries@.take(0) =~= Seq::<HeaderEntry>::empty());
        assert(loaded_view(tensors@) =~= Seq::empty());
        while i < entries.len()
            invariant
                i <= entries@.len(),
                load_outcome(entries@.take(i as int), data_blob@) == Ok::<_, ModelErrorView>(
                    loaded_view(tensors@),
                ),
                forall|k: int|
                    0 <= k < i && load_outcome(entries@.take(k), data_blob@) is Ok && reaches_size_check(
                        #[trigger] entries@[k],
                        data_blob@,
                    ) ==> (entries@[k].info matches Ok(info) && prefix_products_fit(info.shape@)),
            decreases entries@.len() - i,
        {
            proof {
                assert(entries@.take(i + 1).drop_last() =~= entries@.take(i as int));
                assert(entries@.take(i + 1).last() == entries@[i as int]);
            }
            let entry = &entries[i];
            match Self::load_entry(entry, data_blob) {
                EntryStep::Overflow => {
                    proof {
                        assert(load_outcome(entries@.take(i as int), data_blob@) is Ok);
                        assert(reaches_size_check(entries@[i as int], data_blob@));
                    }
                    return None;
                },
                EntryStep::Skip => {},
                EntryStep::Done(Err(e)) => {
                    proof {
                        lemma_failure_persists(entries@, data_blob@, i + 1);
                        assert forall|k: int|
                            0 <= k < entries@.len() && load_outcome(entries@.take(k), data_blob@) is Ok
                                && reaches_size_check(#[trigger] entries@[k], data_blob@) implies (
                        entries@[k].info matches Ok(info) && prefix_products_fit(info.shape@)) by {
                            if k > i {
                                assert(entries@.take(k).take(i + 1) =~= entries@.take(i + 1));
                                lemma_failure_persists(entries@.take(k), data_blob@, i + 1);
                            }
                        }
                    }
                    return Some(Err(e));
                },
                EntryStep::Done(Ok(t)) => {
                    let ghost before = tensors@;
                    tensors.push(t);
                    proof {
                        assert(loaded_view(tensors@) =~= loaded_view(before).push(
                            (t.name@, t.tensor.shape@, t.tensor.data@),
                        ));
                    }
                },
            }
            i = i + 1;
        }
        assert(entries@.take(entries@.len() as int) =~= entries@);
        proof {
            lemma_loaded_tensors_follow_header(entries@, data_blob@, tensors@);
        }
        Some(Ok(tensors))
    }

    /// [`SafeTensorsLoader::try_load_tensors`] on the data section of a whole
    /// file: the bytes of `buffer` from `header_end`, the end of the JSON
    /// header, to the end of the file. Data offsets count from there.
    pub fn try_load_tensors_after_header(buffer: &[u8], header_end: usize, entries: &Vec<HeaderEntry>) -> (r: Option<
        Result<Vec<LoadedTensor>, ModelError>,
    >)
        requires
            header_end <= buffer@.len(),
        ensures
            ({
                let blob = buffer@.subrange(header_end as int, buffer@.len() as int);
                &&& r is None <==> !shapes_fit(entries@, blob)
                &&& r matches Some(res) ==> match res {
                    Ok(ts) => load_outcome(entries@, blob) == Ok::<_, ModelErrorView>(loaded_view(ts@))
                        && follows_header(ts@, entries@, blob),
                    Err(e) => load_outcome(entries@, blob) == Err::<Seq<(Seq<char>, Seq<usize>, Seq<u32>)>, _>(e@),
                }
            }),
    {
        let data_blob = vstd::slice::slice_subrange(buffer, header_end, buffer.len());
        Self::try_load_tensors(entries, data_blob)
    }

    /// Reads the tensors the header entries describe out of the data that
    /// follows the header, in entry order, stopping at the first entry that
    /// fails (see [`load_outcome`]), for entries whose counted shapes fit.
    pub fn load_tensors(entries: &Vec<HeaderEntry>, data_blob: &[u8]) -> (r: Result<
        Vec<LoadedTensor>,
        ModelError,
    >)
        requires
            shapes_fit(entries@, data_blob@),
        ensures
            match r {
                Ok(ts) => load_outcome(entries@, data_blob@) == Ok::<_, ModelErrorView>(loaded_view(ts@))
                    && follows_header(ts@, entries@, data_blob@),
                Err(e) => load_outcome(entries@, data_blob@) == Err::<Seq<(Seq<char>, Seq<usize>, Seq<u32>)>, _>(e@),
            },
    {
        match Self::try_load_tensors(entries, data_blob) {
            Some(result) => result,
            None => {
                proof {
                    assert(false);
                }
                Err(ModelError::InvalidFormat(String::new()))
            },
        }
    }
}

fn copy_shape(shape: &Vec<usize>) -> (out: Vec<usize>)
    ensures
        out@ == shape@,
{
    let mut out: Vec<usize> = Vec::with_capacity(shape.len());
    let mut i: usize = 0;
    while i < shape.len()
        invariant
            i <= shape@.len(),
            out@ == shape@.take(i as int),
        decreases shape@.len() - i,
    {
        out.push(shape[i]);
        i = i + 1;
        assert(out@ =~= shape@.take(i as int));
    }
    assert(shape@.take(shape@.len() as int) =~= shape@);
    out
}

} // verus!
