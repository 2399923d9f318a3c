//! SafeTensors archives: tensors by name, as 32-bit words.

use safetensors::tensor::{Metadata, TensorView};
use safetensors::{SafeTensorError, SafeTensors};
use vstd::prelude::*;
use vstd::slice::slice_subrange;
use crate::bytes::{
    bytes_of, law_words_begin_with_their_least_byte, law_words_round_trip, read_words, words_of,
};

verus! {

/// A parsed archive of `safetensors`.
#[verifier::external_type_specification]
#[verifier::external_body]
pub struct ExSafeTensors<'data>(SafeTensors<'data>);

/// One tensor of an archive, as `safetensors` hands it out.
#[verifier::external_type_specification]
#[verifier::external_body]
pub struct ExTensorView<'data>(TensorView<'data>);

/// What `safetensors` says where it fails.
#[verifier::external_type_specification]
#[verifier::external_body]
pub struct ExSafeTensorError(SafeTensorError);

/// What an archive's header says of its tensors.
#[verifier::external_type_specification]
#[verifier::external_body]
pub struct ExMetadata(Metadata);

/// What a parsed archive holds: the bytes of each tensor, by its name.
pub uninterp spec fn tensors_of(archive: SafeTensors<'_>) -> Map<Seq<char>, Seq<u8>>;

/// Whether every tensor of a parsed archive lies inside the archive's data.
pub uninterp spec fn in_bounds(archive: SafeTensors<'_>) -> bool;

/// The bytes of a tensor that was handed out.
pub uninterp spec fn bytes_in(view: TensorView<'_>) -> Seq<u8>;

/// What an archive file parses to: the bytes of each tensor by its name, or
/// nothing where the file is no archive.
pub uninterp spec fn parsed(file: Seq<u8>) -> Option<Map<Seq<char>, Seq<u8>>>;

/// The end of the data that a header's metadata describes.
pub uninterp spec fn end_in(metadata: Metadata) -> nat;

/// The end of the data that a header describes, or nothing where the header
/// describes none.
pub uninterp spec fn described_end(header: Seq<u8>) -> Option<nat>;

/// The length of an archive's header, as its first eight bytes give it.
pub open spec fn header_length(file: Seq<u8>) -> int {
    file[0] + 0x100 * file[1] + 0x1_0000 * file[2] + 0x100_0000 * file[3] + 0x1_0000_0000
        * file[4] + 0x100_0000_0000 * file[5] + 0x1_0000_0000_0000 * file[6]
        + 0x100_0000_0000_0000 * file[7]
}

/// The header of an archive, where the file is long enough to hold it.
pub open spec fn header_of(file: Seq<u8>) -> Option<Seq<u8>> {
    if file.len() >= 8 && 8 + header_length(file) <= file.len() {
        Some(file.subrange(8, 8 + header_length(file)))
    } else {
        None
    }
}

/// Whether data that ends at an offset, if there is any, leaves a place behind
/// a header of so many bytes and the eight before it that a `usize` can hold.
pub open spec fn has_room(end: Option<nat>, header: nat) -> bool {
    match end {
        Some(end) => end + 8 + header <= usize::MAX,
        None => true,
    }
}

/// Whether the end of the data that an archive's header describes is a place
/// in a file.
pub open spec fn end_fits(file: Seq<u8>) -> bool {
    match header_of(file) {
        Some(header) => has_room(described_end(header), header.len()),
        None => true,
    }
}

/// What an archive file holds: the bytes of each tensor by its name, or nothing
/// where the file is no archive. The data of an archive ends with the file, so
/// a file whose data would end behind all places is none.
pub open spec fn contents(file: Seq<u8>) -> Option<Map<Seq<char>, Seq<u8>>> {
    if end_fits(file) {
        parsed(file)
    } else {
        None
    }
}

/// `serde_json::from_slice` reads a header as the `Metadata` of `safetensors`:
/// tensors whose offsets follow each other without a gap, each as long as its
/// shape says. It fails where the header is not of this form. The result
/// depends on the header alone. Left unsaid: which headers are of this form,
/// and what they describe.
#[verifier::external_body]
fn read_header(header: &[u8]) -> (result: Result<Metadata, serde_json::Error>)
    ensures
        match result {
            Ok(metadata) => described_end(header@) == Some(end_in(metadata)),
            Err(_) => described_end(header@) is None,
        },
{
    serde_json::from_slice(header)
}

/// `Metadata::data_len` gives the offset at which the last tensor ends, or zero
/// where there is none.
#[verifier::external_body]
fn data_len(metadata: &Metadata) -> (end: usize)
    ensures
        end == end_in(*metadata),
{
    metadata.data_len()
}

/// `SafeTensors::deserialize` reads an archive's header as `Metadata` and
/// checks that the data that it describes ends with the file. The result
/// depends on the file alone, and an archive that it returns has every tensor
/// inside its data. The sum of the data's end and the header's length is taken
/// without a check, so there has to be room for it. Left unsaid: which files
/// are archives, and what they hold.
#[verifier::external_body]
fn deserialize(file: &[u8]) -> (result: Result<SafeTensors<'_>, SafeTensorError>)
    requires
        end_fits(file@),
    ensures
        match result {
            Ok(archive) => in_bounds(archive) && parsed(file@) == Some(tensors_of(archive)),
            Err(_) => parsed(file@) is None,
        },
{
    SafeTensors::deserialize(file)
}

/// `SafeTensors::tensor` looks a tensor up by its name, and fails exactly
/// where the archive has none of that name.
#[verifier::external_body]
fn tensor<'data>(archive: &SafeTensors<'data>, name: &str) -> (result: Result<
    TensorView<'data>,
    SafeTensorError,
>)
    requires
        in_bounds(*archive),
    ensures
        match result {
            Ok(view) => tensors_of(*archive).dom().contains(name@) && bytes_in(view) == tensors_of(
                *archive,
            )[name@],
            Err(_) => !tensors_of(*archive).dom().contains(name@),
        },
{
    archive.tensor(name)
}

/// `TensorView::data` gives the bytes of a tensor.
#[verifier::external_body]
fn data<'data>(view: &TensorView<'data>) -> (bytes: &'data [u8])
    ensures
        bytes@ == bytes_in(*view),
{
    view.data()
}

/// Why weights could not be loaded.
#[derive(Debug)]
pub enum LoadError {
    /// The file is no archive.
    Malformed,
    /// The archive has no tensor of this name.
    Missing { key: String },
    /// The tensor's bytes are not made of 32-bit values.
    NotSingle { key: String, bytes: usize },
    /// The tensor does not have the values of the shape that it should have.
    WrongSize { key: String, dims: Vec<usize>, values: usize },
}

/// What a `LoadError` says.
pub ghost enum Failure {
    Malformed,
    Missing { key: Seq<char> },
    NotSingle { key: Seq<char>, bytes: nat },
    WrongSize { key: Seq<char>, dims: Seq<usize>, values: nat },
}

impl View for LoadError {
    type V = Failure;

    open spec fn view(&self) -> Failure {
        match *self {
            LoadError::Malformed => Failure::Malformed,
            LoadError::Missing { key } => Failure::Missing { key: key@ },
            LoadError::NotSingle { key, bytes } => Failure::NotSingle {
                key: key@,
                bytes: bytes as nat,
            },
            LoadError::WrongSize { key, dims, values } => Failure::WrongSize {
                key: key@,
                dims: dims@,
                values: values as nat,
            },
        }
    }
}

/// The values of a tensor, row-major, and its shape.
#[derive(Debug)]
pub struct RawTensor {
    pub dims: Vec<usize>,
    pub data: Vec<u32>,
}

/// The name of a tensor, and the shape that it should have.
#[derive(Debug)]
pub struct TensorSpec {
    pub key: String,
    pub dims: Vec<usize>,
}

impl View for TensorSpec {
    type V = (Seq<char>, Seq<usize>);

    open spec fn view(&self) -> (Seq<char>, Seq<usize>) {
        (self.key@, self.dims@)
    }
}

/// The number of values of a shape.
pub open spec fn size_of(dims: Seq<usize>) -> nat
    decreases dims.len(),
{
    if dims.len() == 0 {
        1
    } else {
        size_of(dims.drop_last()) * dims.last() as nat
    }
}

impl RawTensor {
    /// A tensor has as many values as its shape says.
    pub open spec fn wf(&self) -> bool {
        self.data@.len() == size_of(self.dims@)
    }
}

/// The values that a tensor holds, or why it holds none.
pub open spec fn values_of(found: Option<Seq<u8>>, key: Seq<char>) -> Result<Seq<u32>, Failure> {
    match found {
        None => Err(Failure::Missing { key }),
        Some(bytes) => if bytes.len() % 4 != 0 {
            Err(Failure::NotSingle { key, bytes: bytes.len() })
        } else {
            Ok(words_of(bytes))
        },
    }
}

/// The values of a tensor of a given shape, or why there are none.
pub open spec fn shaped_values(
    values: Result<Seq<u32>, Failure>,
    key: Seq<char>,
    dims: Seq<usize>,
) -> Result<Seq<u32>, Failure> {
    match values {
        Err(failure) => Err(failure),
        Ok(values) => if values.len() != size_of(dims) {
            Err(Failure::WrongSize { key, dims, values: values.len() })
        } else {
            Ok(values)
        },
    }
}

/// What is found under a name.
pub open spec fn lookup(tensors: Map<Seq<char>, Seq<u8>>, key: Seq<char>) -> Option<Seq<u8>> {
    if tensors.dom().contains(key) {
        Some(tensors[key])
    } else {
        None
    }
}

/// What loading one tensor of an archive comes to.
pub open spec fn loaded(
    tensors: Map<Seq<char>, Seq<u8>>,
    spec_of: (Seq<char>, Seq<usize>),
) -> Result<Seq<u32>, Failure> {
    shaped_values(values_of(lookup(tensors, spec_of.0), spec_of.0), spec_of.0, spec_of.1)
}

/// The first failure among tensors that are loaded in order.
pub open spec fn first_failure(
    tensors: Map<Seq<char>, Seq<u8>>,
    specs: Seq<(Seq<char>, Seq<usize>)>,
) -> Option<Failure>
    decreases specs.len(),
{
    if specs.len() == 0 {
        None
    } else {
        match first_failure(tensors, specs.drop_last()) {
            Some(failure) => Some(failure),
            None => match loaded(tensors, specs.last()) {
                Err(failure) => Some(failure),
                Ok(_) => None,
            },
        }
    }
}

/// Whether tensors are what loading them in order gives.
pub open spec fn all_loaded(
    tensors: Map<Seq<char>, Seq<u8>>,
    specs: Seq<(Seq<char>, Seq<usize>)>,
    got: Seq<RawTensor>,
) -> bool {
    &&& got.len() == specs.len()
    &&& forall|i: int|
        0 <= i < got.len() ==> (#[trigger] got[i]).dims@ == specs[i].1 && loaded(tensors, specs[i])
            == Ok::<Seq<u32>, Failure>(got[i].data@)
}

fn length_of_header(file: &[u8]) -> (length: u64)
    requires
        file@.len() >= 8,
    ensures
        length == header_length(file@),
{
    file[0] as u64 + 0x100 * file[1] as u64 + 0x1_0000 * file[2] as u64 + 0x100_0000
        * file[3] as u64 + 0x1_0000_0000 * file[4] as u64 + 0x100_0000_0000 * file[5] as u64
        + 0x1_0000_0000_0000 * file[6] as u64 + 0x100_0000_0000_0000 * file[7] as u64
}

/// Whether the end of an archive's data leaves room for a header and the eight
/// bytes before it.
pub fn leaves_room(end: Option<usize>, header: usize) -> (room: bool)
    ensures
        room == has_room(
            match end {
                Some(end) => Some(end as nat),
                None => None,
            },
            header as nat,
        ),
{
    match end {
        Some(end) => header <= usize::MAX - 8 && end <= usize::MAX - 8 - header,
        None => true,
    }
}

fn does_end_fit(file: &[u8]) -> (fit: bool)
    ensures
        fit == end_fits(file@),
{
    let total: usize = file.len();
    if total < 8 {
        return true;
    }
    let length: u64 = length_of_header(file);
    if length > (total - 8) as u64 {
        return true;
    }
    let header: &[u8] = slice_subrange(file, 8, 8 + length as usize);
    let end: Option<usize> = match read_header(header) {
        Ok(metadata) => Some(data_len(&metadata)),
        Err(_) => None,
    };
    leaves_room(end, length as usize)
}

/// Parses an archive file.
pub fn parse_archive(file: &[u8]) -> (result: Result<SafeTensors<'_>, LoadError>)
    ensures
        match result {
            Ok(archive) => in_bounds(archive) && contents(file@) == Some(tensors_of(archive)),
            Err(error) => contents(file@) is None && error@ == Failure::Malformed,
        },
{
    if !does_end_fit(file) {
        return Err(LoadError::Malformed);
    }
    match deserialize(file) {
        Ok(archive) => Ok(archive),
        Err(_) => Err(LoadError::Malformed),
    }
}

/// Takes the bytes that were found under a name as 32-bit values.
pub fn decode_values(found: Option<&[u8]>, key: &str) -> (result: Result<Vec<u32>, LoadError>)
    ensures
        match (result, values_of(
            match found {
                Some(bytes) => Some(bytes@),
                None => None,
            },
            key@,
        )) {
            (Ok(values), Ok(expected)) => values@ == expected,
            (Err(error), Err(failure)) => error@ == failure,
            _ => false,
        },
{
    match found {
        None => Err(LoadError::Missing { key: key.to_owned() }),
        Some(bytes) => {
            let total: usize = bytes.len();
            if total % 4 != 0 {
                Err(LoadError::NotSingle { key: key.to_owned(), bytes: total })
            } else {
                let values: Vec<u32> = read_words(bytes, 0, total / 4);
                assert(bytes@.skip(0) =~= bytes@);
                assert(values@ =~= words_of(bytes@));
                Ok(values)
            }
        },
    }
}

proof fn lemma_size_without_zero(dims: Seq<usize>, count: int)
    requires
        0 <= count <= dims.len(),
        forall|i: int| 0 <= i < dims.len() ==> dims[i] > 0,
    ensures
        0 < size_of(dims.take(count)) <= size_of(dims),
    decreases dims.len(),
{
    if count == dims.len() {
        assert(dims.take(count) =~= dims);
        if dims.len() > 0 {
            assert(dims.drop_last() =~= dims.take(dims.len() - 1));
            lemma_size_without_zero(dims.drop_last(), dims.len() - 1);
            assert(dims.drop_last().take(dims.len() - 1) =~= dims.drop_last());
            let s = size_of(dims.drop_last());
            let d = dims.last() as nat;
            assert(s * d > 0) by (nonlinear_arith)
                requires
                    s > 0,
                    d > 0,
            ;
        }
    } else {
        lemma_size_without_zero(dims.drop_last(), count);
        assert(dims.drop_last().take(count) =~= dims.take(count));
        let s = size_of(dims.drop_last());
        let d = dims.last() as nat;
        assert(s <= s * d) by (nonlinear_arith)
            requires
                d > 0,
        ;
    }
}

proof fn lemma_size_with_zero(dims: Seq<usize>, at: int)
    requires
        0 <= at < dims.len(),
        dims[at] == 0,
    ensures
        size_of(dims) == 0,
    decreases dims.len(),
{
    if at < dims.len() - 1 {
        lemma_size_with_zero(dims.drop_last(), at);
    }
    let s = size_of(dims.drop_last());
    let d = dims.last() as nat;
    assert(s * d == 0) by (nonlinear_arith)
        requires
            s == 0 || d == 0,
    ;
}

/// Whether a shape has so many values.
pub fn has_size(dims: &Vec<usize>, values: usize) -> (yes: bool)
    ensures
        yes == (size_of(dims@) == values),
{
    let mut z: usize = 0;
    while z < dims.len()
        invariant
            z <= dims.len(),
            forall|i: int| 0 <= i < z ==> dims@[i] > 0,
        decreases dims.len() - z,
    {
        if dims[z] == 0 {
            proof {
                lemma_size_with_zero(dims@, z as int);
            }
            return values == 0;
        }
        z = z + 1;
    }
    let mut size: usize = 1;
    let mut i: usize = 0;
    while i < dims.len()
        invariant
            i <= dims.len(),
            forall|j: int| 0 <= j < dims.len() ==> dims@[j] > 0,
            size == size_of(dims@.take(i as int)),
        decreases dims.len() - i,
    {
        proof {
            assert(dims@.take(i + 1).drop_last() =~= dims@.take(i as int));
            lemma_size_without_zero(dims@, i + 1);
        }
        match size.checked_mul(dims[i]) {
            Some(product) => {
                size = product;
            },
            None => {
                return false;
            },
        }
        i = i + 1;
    }
    assert(dims@.take(dims.len() as int) =~= dims@);
    size == values
}

/// Gives values a shape.
pub fn shape_values(values: Vec<u32>, key: &str, dims: &Vec<usize>) -> (result: Result<
    RawTensor,
    LoadError,
>)
    ensures
        match (result, shaped_values(Ok(values@), key@, dims@)) {
            (Ok(tensor), Ok(expected)) => tensor.data@ == expected && tensor.dims@ == dims@,
            (Err(error), Err(failure)) => error@ == failure,
            _ => false,
        },
{
    let shape: Vec<usize> = dims.clone();
    assert(shape@ =~= dims@);
    if has_size(dims, values.len()) {
        Ok(RawTensor { dims: shape, data: values })
    } else {
        Err(LoadError::WrongSize { key: key.to_owned(), dims: shape, values: values.len() })
    }
}

/// Loads the values of a tensor.
pub fn load_values(archive: &SafeTensors<'_>, key: &str) -> (result: Result<Vec<u32>, LoadError>)
    requires
        in_bounds(*archive),
    ensures
        match (result, values_of(lookup(tensors_of(*archive), key@), key@)) {
            (Ok(values), Ok(expected)) => values@ == expected,
            (Err(error), Err(failure)) => error@ == failure,
            _ => false,
        },
{
    match tensor(archive, key) {
        Ok(view) => decode_values(Some(data(&view)), key),
        Err(_) => decode_values(None, key),
    }
}

/// Loads a tensor of a given shape.
pub fn load_tensor(archive: &SafeTensors<'_>, wanted: &TensorSpec) -> (result: Result<
    RawTensor,
    LoadError,
>)
    requires
        in_bounds(*archive),
    ensures
        match (result, loaded(tensors_of(*archive), wanted@)) {
            (Ok(tensor), Ok(expected)) => tensor.data@ == expected && tensor.dims@ == wanted.dims@
                && tensor.wf(),
            (Err(error), Err(failure)) => error@ == failure,
            _ => false,
        },
{
    match load_values(archive, wanted.key.as_str()) {
        Ok(values) => shape_values(values, wanted.key.as_str(), &wanted.dims),
        Err(error) => Err(error),
    }
}

proof fn lemma_first_failure(
    tensors: Map<Seq<char>, Seq<u8>>,
    specs: Seq<(Seq<char>, Seq<usize>)>,
    count: int,
)
    requires
        0 <= count <= specs.len(),
        first_failure(tensors, specs.take(count)) is Some,
    ensures
        first_failure(tensors, specs) == first_failure(tensors, specs.take(count)),
    decreases specs.len(),
{
    if count == specs.len() {
        assert(specs.take(count) =~= specs);
    } else {
        assert(specs.drop_last().take(count) =~= specs.take(count));
        lemma_first_failure(tensors, specs.drop_last(), count);
    }
}

/// The first failure in one list of tensors and another after it.
pub proof fn lemma_first_failure_in_two(
    tensors: Map<Seq<char>, Seq<u8>>,
    first: Seq<(Seq<char>, Seq<usize>)>,
    second: Seq<(Seq<char>, Seq<usize>)>,
)
    ensures
        first_failure(tensors, first + second) == (match first_failure(tensors, first) {
            Some(failure) => Some(failure),
            None => first_failure(tensors, second),
        }),
    decreases second.len(),
{
    if second.len() == 0 {
        assert(first + second =~= first);
    } else {
        assert((first + second).drop_last() =~= first + second.drop_last());
        assert((first + second).last() == second.last());
        lemma_first_failure_in_two(tensors, first, second.drop_last());
    }
}

/// Loading gives back the values that were written under a name, where there
/// are as many of them as the shape says.
pub proof fn law_loading_gives_back_what_was_written(
    tensors: Map<Seq<char>, Seq<u8>>,
    key: Seq<char>,
    dims: Seq<usize>,
    values: Seq<u32>,
)
    requires
        values.len() == size_of(dims),
    ensures
        loaded(tensors.insert(key, bytes_of(values)), (key, dims)) == Ok::<Seq<u32>, Failure>(
            values,
        ),
{
    law_words_round_trip(values);
}

/// Tensors load exactly where each of them does, and each then has as many
/// values as its shape says.
pub proof fn law_all_load_where_each_does(
    tensors: Map<Seq<char>, Seq<u8>>,
    specs: Seq<(Seq<char>, Seq<usize>)>,
)
    ensures
        first_failure(tensors, specs) is None <==> forall|i: int|
            0 <= i < specs.len() ==> loaded(tensors, #[trigger] specs[i]) is Ok,
        forall|got: Seq<RawTensor>, i: int|
            all_loaded(tensors, specs, got) && 0 <= i < got.len() ==> (#[trigger] got[i]).wf(),
    decreases specs.len(),
{
    if specs.len() > 0 {
        let fewer = specs.drop_last();
        law_all_load_where_each_does(tensors, fewer);
        assert forall|i: int| 0 <= i < fewer.len() implies fewer[i] == #[trigger] specs[i] by {}
        if first_failure(tensors, specs) is None {
            assert forall|i: int| 0 <= i < specs.len() implies loaded(
                tensors,
                #[trigger] specs[i],
            ) is Ok by {
                if i < fewer.len() {
                    assert(loaded(tensors, fewer[i]) is Ok);
                }
            }
        } else if first_failure(tensors, fewer) is None {
            assert(loaded(tensors, specs[specs.len() - 1]) is Err);
        } else {
            let i = choose|i: int| 0 <= i < fewer.len() && !(loaded(tensors, #[trigger] fewer[i]) is Ok);
            assert(!(loaded(tensors, specs[i]) is Ok));
        }
    }
}

/// Loads tensors in order, up to the first that fails.
pub fn load_all(archive: &SafeTensors<'_>, wanted: &Vec<TensorSpec>) -> (result: Result<
    Vec<RawTensor>,
    LoadError,
>)
    requires
        in_bounds(*archive),
    ensures
        ({
            let specs = wanted@.map_values(|w: TensorSpec| w@);
            let failure = first_failure(tensors_of(*archive), specs);
            match result {
                Ok(got) => failure is None && all_loaded(tensors_of(*archive), specs, got@),
                Err(error) => failure == Some(error@),
            }
        }),
{
    let ghost specs = wanted@.map_values(|w: TensorSpec| w@);
    let ghost tensors = tensors_of(*archive);
    let mut got: Vec<RawTensor> = Vec::new();
    let mut i: usize = 0;
    while i < wanted.len()
        invariant
            i <= wanted.len(),
            in_bounds(*archive),
            specs == wanted@.map_values(|w: TensorSpec| w@),
            tensors == tensors_of(*archive),
            first_failure(tensors, specs.take(i as int)) is None,
            all_loaded(tensors, specs.take(i as int), got@),
        decreases wanted.len() - i,
    {
        proof {
            assert(specs.take(i + 1).drop_last() =~= specs.take(i as int));
            assert(specs.take(i + 1).last() == wanted[i as int]@);
        }
        match load_tensor(archive, &wanted[i]) {
            Ok(tensor) => {
                let ghost before = got@;
                got.push(tensor);
                assert forall|j: int| 0 <= j < got@.len() implies (#[trigger] got@[j]).dims@
                    == specs.take(i + 1)[j].1 && loaded(tensors, specs.take(i + 1)[j]) == Ok::<
                    Seq<u32>,
                    Failure,
                >(got@[j].data@) by {
                    if j < i {
                        assert(got@[j] == before[j]);
                        assert(specs.take(i + 1)[j] == specs.take(i as int)[j]);
                    }
                }
            },
            Err(error) => {
                proof {
                    lemma_first_failure(tensors, specs, i + 1);
                }
                return Err(error);
            },
        }
        i = i + 1;
    }
    assert(specs.take(wanted.len() as int) =~= specs);
    Ok(got)
}

/// A tensor loads exactly where it is there, has whole words, and as many of them
/// as its shape has values. Then it holds these words. Otherwise what is wrong is
/// said: first that it is missing, then that its bytes are no words, then that
/// there are too few or too many.
pub proof fn law_tensors_load_where_they_fit(
    tensors: Map<Seq<char>, Seq<u8>>,
    key: Seq<char>,
    dims: Seq<usize>,
)
    ensures
        !tensors.dom().contains(key) <==> loaded(tensors, (key, dims)) == Err::<Seq<u32>, Failure>(
            Failure::Missing { key },
        ),
        tensors.dom().contains(key) ==> ({
            let bytes = tensors[key];
            &&& bytes.len() % 4 != 0 ==> loaded(tensors, (key, dims)) == Err::<Seq<u32>, Failure>(
                Failure::NotSingle { key, bytes: bytes.len() },
            )
            &&& bytes.len() % 4 == 0 && bytes.len() != 4 * size_of(dims) ==> loaded(
                tensors,
                (key, dims),
            ) == Err::<Seq<u32>, Failure>(
                Failure::WrongSize { key, dims, values: (bytes.len() / 4) as nat },
            )
            &&& bytes.len() == 4 * size_of(dims) ==> loaded(tensors, (key, dims)) == Ok::<
                Seq<u32>,
                Failure,
            >(words_of(bytes))
        }),
{
}

/// The first failure is that of a tensor before which all load.
pub proof fn law_failures_come_in_order(
    tensors: Map<Seq<char>, Seq<u8>>,
    specs: Seq<(Seq<char>, Seq<usize>)>,
) -> (at: int)
    requires
        first_failure(tensors, specs) is Some,
    ensures
        0 <= at < specs.len(),
        loaded(tensors, specs[at]) == Err::<Seq<u32>, Failure>(first_failure(tensors, specs)->0),
        forall|i: int| 0 <= i < at ==> loaded(tensors, #[trigger] specs[i]) is Ok,
    decreases specs.len(),
{
    let fewer = specs.drop_last();
    if first_failure(tensors, fewer) is Some {
        let at = law_failures_come_in_order(tensors, fewer);
        assert(fewer[at] == specs[at]);
        assert forall|i: int| 0 <= i < at implies loaded(tensors, #[trigger] specs[i]) is Ok by {
            assert(fewer[i] == specs[i]);
        }
        at
    } else {
        law_all_load_where_each_does(tensors, fewer);
        assert forall|i: int| 0 <= i < specs.len() - 1 implies loaded(
            tensors,
            #[trigger] specs[i],
        ) is Ok by {
            assert(fewer[i] == specs[i]);
        }
        specs.len() - 1
    }
}

/// Dimensions multiply.
pub proof fn law_sizes_multiply(a: usize, b: usize, c: usize, d: usize)
    ensures
        size_of(seq![a]) == a,
        size_of(seq![a, b]) == a * b,
        size_of(seq![a, b, c]) == a * b * c,
        size_of(seq![a, b, c, d]) == a * b * c * d,
{
    assert(seq![a, b, c, d].drop_last() =~= seq![a, b, c]);
    assert(seq![a, b, c].drop_last() =~= seq![a, b]);
    assert(seq![a, b].drop_last() =~= seq![a]);
    assert(seq![a].drop_last() =~= seq![]);
    assert(size_of(seq![]) == 1);
    let one = size_of(seq![a].drop_last());
    assert(one * (a as nat) == a) by (nonlinear_arith)
        requires
            one == 1,
    ;
    assert(size_of(seq![a]) == one * (a as nat));
    assert(size_of(seq![a, b].drop_last()) == a);
    assert(size_of(seq![a, b]) == size_of(seq![a, b].drop_last()) * (b as nat));
    assert(size_of(seq![a, b, c].drop_last()) == a * b);
    assert(size_of(seq![a, b, c]) == size_of(seq![a, b, c].drop_last()) * (c as nat));
    assert(size_of(seq![a, b, c, d].drop_last()) == a * b * c);
    assert(size_of(seq![a, b, c, d]) == size_of(seq![a, b, c, d].drop_last()) * (d as nat));
}

/// A header's length is written in eight bytes, the least first: as two words,
/// the lesser first.
pub proof fn law_header_lengths_begin_with_their_least_byte(file: Seq<u8>)
    requires
        file.len() >= 8,
    ensures
        header_length(file) == words_of(file)[0] + 0x1_0000_0000 * words_of(file)[1],
{
    law_words_begin_with_their_least_byte(file, 0);
    law_words_begin_with_their_least_byte(file, 1);
}

/// An archive file holds what it parses to, unless its data would end behind all
/// places that a `usize` can count: then it is none.
pub proof fn law_archives_hold_what_they_parse_to(file: Seq<u8>)
    ensures
        ({
            let length = header_length(file);
            let header = file.subrange(8, 8 + length);
            if file.len() >= 8 && 8 + length <= file.len() && (described_end(header) matches Some(
                end,
            ) && end + 8 + length > usize::MAX) {
                contents(file) is None
            } else {
                contents(file) == parsed(file)
            }
        }),
{
}

} // verus!
