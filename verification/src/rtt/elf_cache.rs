//! Parsed images by path, so that each is read, parsed and kept only once.

use crate::error::DebugError;
use crate::error::ErrorView;
use crate::rtt::elf_parser;
use crate::rtt::elf_parser::CachedElf;
use crate::rtt::object_file;
use std::sync::Arc;
use vstd::prelude::*;

verus! {

/// The parsed images so far. A path is a sequence of bytes here, as file systems have it.
pub struct ElfCache {
    entries: Vec<(Vec<u8>, Arc<CachedElf>)>,
}

/// The images by path; the last entry for a path counts.
pub open spec fn images_by_path(entries: Seq<(Vec<u8>, Arc<CachedElf>)>) -> Map<
    Seq<u8>,
    Arc<CachedElf>,
>
    decreases entries.len(),
{
    if entries.len() == 0 {
        Map::empty()
    } else {
        images_by_path(entries.drop_last()).insert(entries.last().0@, entries.last().1)
    }
}

/// No path occurs twice.
spec fn distinct_paths(entries: Seq<(Vec<u8>, Arc<CachedElf>)>) -> bool {
    forall|i: int, j: int|
        0 <= i < j < entries.len() ==> (#[trigger] entries[i]).0@ != (#[trigger] entries[j]).0@
}

proof fn lemma_entry(entries: Seq<(Vec<u8>, Arc<CachedElf>)>, i: int)
    requires
        distinct_paths(entries),
        0 <= i < entries.len(),
    ensures
        images_by_path(entries).dom().contains(entries[i].0@),
        images_by_path(entries)[entries[i].0@] == entries[i].1,
    decreases entries.len(),
{
    if i < entries.len() - 1 {
        assert(entries[i].0@ != entries[entries.len() - 1].0@);
        let rest = entries.drop_last();
        assert forall|a: int, b: int| 0 <= a < b < rest.len() implies (#[trigger] rest[a]).0@ != (
        #[trigger] rest[b]).0@ by {
            assert(entries[a].0@ != entries[b].0@);
        }
        lemma_entry(rest, i);
    }
}

proof fn lemma_no_entry(entries: Seq<(Vec<u8>, Arc<CachedElf>)>, path: Seq<u8>)
    requires
        forall|i: int| 0 <= i < entries.len() ==> (#[trigger] entries[i]).0@ != path,
    ensures
        !images_by_path(entries).dom().contains(path),
    decreases entries.len(),
{
    if entries.len() > 0 {
        assert(entries[entries.len() - 1].0@ != path);
        let rest = entries.drop_last();
        assert forall|i: int| 0 <= i < rest.len() implies (#[trigger] rest[i]).0@ != path by {
            assert(entries[i].0@ != path);
        }
        lemma_no_entry(rest, path);
    }
}

/// `Arc::clone`: another handle on the same value.
#[verifier::external_body]
fn share(image: &Arc<CachedElf>) -> (shared: Arc<CachedElf>)
    ensures
        shared == *image,
{
    Arc::clone(image)
}

/// `Vec::leak`: the bytes themselves, which are kept for the rest of the process.
#[verifier::external_body]
fn keep_bytes(bytes: Vec<u8>) -> (kept: &'static [u8])
    ensures
        kept@ == bytes@,
{
    bytes.leak()
}

fn same_path(a: &[u8], b: &[u8]) -> (r: bool)
    ensures
        r == (a@ == b@),
{
    if a.len() != b.len() {
        return false;
    }
    let mut i: usize = 0;
    while i < a.len()
        invariant
            i <= a@.len(),
            a@.len() == b@.len(),
            forall|j: int| 0 <= j < i ==> a@[j] == b@[j],
        decreases a@.len() - i,
    {
        if a[i] != b[i] {
            return false;
        }
        i = i + 1;
    }
    assert(a@ == b@);
    true
}

impl View for ElfCache {
    type V = Map<Seq<u8>, Arc<CachedElf>>;

    closed spec fn view(&self) -> Map<Seq<u8>, Arc<CachedElf>> {
        images_by_path(self.entries@)
    }
}

impl ElfCache {
    #[verifier::type_invariant]
    spec fn paths_differ(&self) -> bool {
        distinct_paths(self.entries@)
    }

    /// A cache without images.
    pub fn new() -> (cache: ElfCache)
        ensures
            cache@ == Map::<Seq<u8>, Arc<CachedElf>>::empty(),
    {
        ElfCache { entries: Vec::new() }
    }

    /// The image that is kept for a path.
    pub fn get(&self, path: &[u8]) -> (found: Option<Arc<CachedElf>>)
        ensures
            match found {
                Some(image) => self@.dom().contains(path@) && self@[path@] == image,
                None => !self@.dom().contains(path@),
            },
    {
        proof {
            use_type_invariant(self);
        }
        let mut i: usize = 0;
        while i < self.entries.len()
            invariant
                i <= self.entries@.len(),
                distinct_paths(self.entries@),
                forall|k: int| 0 <= k < i ==> (#[trigger] self.entries@[k]).0@ != path@,
            decreases self.entries@.len() - i,
        {
            if same_path(self.entries[i].0.as_slice(), path) {
                proof {
                    lemma_entry(self.entries@, i as int);
                }
                return Some(share(&self.entries[i].1));
            }
            i = i + 1;
        }
        proof {
            lemma_no_entry(self.entries@, path@);
        }
        None
    }

    fn insert(&mut self, path: Vec<u8>, image: Arc<CachedElf>)
        requires
            !old(self)@.dom().contains(path@),
        ensures
            final(self)@ == old(self)@.insert(path@, image),
    {
        proof {
            use_type_invariant(&*self);
        }
        let mut entries: Vec<(Vec<u8>, Arc<CachedElf>)> = Vec::new();
        std::mem::swap(&mut entries, &mut self.entries);
        let ghost before = entries@;
        entries.push((path, image));
        proof {
            assert(entries@.drop_last() == before);
            assert forall|i: int, j: int| 0 <= i < j < entries@.len() implies (
            #[trigger] entries@[i]).0@ != (#[trigger] entries@[j]).0@ by {
                if j == before.len() {
                    lemma_entry(before, i);
                } else {
                    assert(before[i].0@ != before[j].0@);
                }
            }
        }
        self.entries = entries;
    }
}

/// What a request for a path gives, and what the cache keeps from then on. A path that is kept
/// is answered from the cache. Otherwise `data` is parsed, and the image is kept if that
/// succeeds.
pub open spec fn answers(
    before: Map<Seq<u8>, Arc<CachedElf>>,
    path: Seq<u8>,
    elf_path: Seq<char>,
    data: Result<Seq<u8>, Seq<char>>,
    r: Result<Arc<CachedElf>, DebugError>,
    after: Map<Seq<u8>, Arc<CachedElf>>,
) -> bool {
    if before.dom().contains(path) {
        r == Ok::<Arc<CachedElf>, DebugError>(before[path]) && after == before
    } else {
        match data {
            Err(message) => after == before && (r matches Err(error) && error@
                == ErrorView::RttError("Failed to read ELF file "@ + elf_path + ": "@ + message)),
            Ok(bytes) => match object_file::parsed_image(bytes) {
                Err(message) => after == before && (r matches Err(error) && error@
                    == ErrorView::RttError(
                    "Failed to parse ELF file "@ + elf_path + ": "@ + message,
                )),
                Ok(image) => r matches Ok(elf) && elf.image() == image && after == before.insert(
                    path,
                    elf,
                ),
            },
        }
    }
}

/// Once a request for a path has succeeded, every later one is given the same image, whatever
/// the file holds by then, and the cache stays as it is.
pub proof fn lemma_same_image(
    before: Map<Seq<u8>, Arc<CachedElf>>,
    path: Seq<u8>,
    first_elf_path: Seq<char>,
    first_data: Result<Seq<u8>, Seq<char>>,
    image: Arc<CachedElf>,
    between: Map<Seq<u8>, Arc<CachedElf>>,
    second_elf_path: Seq<char>,
    second_data: Result<Seq<u8>, Seq<char>>,
    second: Result<Arc<CachedElf>, DebugError>,
    after: Map<Seq<u8>, Arc<CachedElf>>,
)
    requires
        answers(before, path, first_elf_path, first_data, Ok(image), between),
        answers(between, path, second_elf_path, second_data, second, after),
    ensures
        second == Ok::<Arc<CachedElf>, DebugError>(image),
        after == between,
{
}

/// A request for one path leaves the images of all other paths, and every image that is already
/// kept, as they are.
pub proof fn lemma_kept_images(
    before: Map<Seq<u8>, Arc<CachedElf>>,
    path: Seq<u8>,
    elf_path: Seq<char>,
    data: Result<Seq<u8>, Seq<char>>,
    r: Result<Arc<CachedElf>, DebugError>,
    after: Map<Seq<u8>, Arc<CachedElf>>,
    other: Seq<u8>,
)
    requires
        answers(before, path, elf_path, data, r, after),
    ensures
        before.dom().contains(other) ==> after.dom().contains(other) && after[other]
            == before[other],
        other != path ==> after.dom().contains(other) == before.dom().contains(other),
{
}

/// A request for a path that is kept is given the kept image, and nothing is read or parsed.
pub proof fn lemma_kept_request(
    before: Map<Seq<u8>, Arc<CachedElf>>,
    path: Seq<u8>,
    elf_path: Seq<char>,
    data: Result<Seq<u8>, Seq<char>>,
    r: Result<Arc<CachedElf>, DebugError>,
    after: Map<Seq<u8>, Arc<CachedElf>>,
)
    requires
        answers(before, path, elf_path, data, r, after),
        before.dom().contains(path),
    ensures
        r is Ok,
        r->Ok_0 == before[path],
        after == before,
{
}

/// The first request for a path whose bytes are an object file is given what they hold, and it is
/// kept under that path.
pub proof fn lemma_first_request(
    before: Map<Seq<u8>, Arc<CachedElf>>,
    path: Seq<u8>,
    elf_path: Seq<char>,
    bytes: Seq<u8>,
    r: Result<Arc<CachedElf>, DebugError>,
    after: Map<Seq<u8>, Arc<CachedElf>>,
)
    requires
        answers(before, path, elf_path, Ok(bytes), r, after),
        !before.dom().contains(path),
        object_file::parsed_image(bytes) is Ok,
    ensures
        r is Ok,
        object_file::parsed_image(bytes) == Ok::<object_file::ImageView, Seq<char>>(
            r->Ok_0.image(),
        ),
        after.dom() == before.dom().insert(path),
        after[path] == r->Ok_0,
        forall|other: Seq<u8>|
            other != path && before.dom().contains(other) ==> #[trigger] after[other]
                == before[other],
{
}

/// A first request fails exactly if the file cannot be read or its bytes are not an object file;
/// the message names the image and the reason, and nothing is kept.
pub proof fn lemma_failed_request(
    before: Map<Seq<u8>, Arc<CachedElf>>,
    path: Seq<u8>,
    elf_path: Seq<char>,
    data: Result<Seq<u8>, Seq<char>>,
    r: Result<Arc<CachedElf>, DebugError>,
    after: Map<Seq<u8>, Arc<CachedElf>>,
)
    requires
        answers(before, path, elf_path, data, r, after),
        !before.dom().contains(path),
        data is Err || object_file::parsed_image(data->Ok_0) is Err,
    ensures
        r is Err,
        after == before,
        data is Err ==> r->Err_0@ == ErrorView::RttError(
            "Failed to read ELF file "@ + elf_path + ": "@ + data->Err_0,
        ),
        data is Ok ==> r->Err_0@ == ErrorView::RttError(
            "Failed to parse ELF file "@ + elf_path + ": "@ + object_file::parsed_image(
                data->Ok_0,
            )->Err_0,
        ),
{
}

/// What reading a file gave, viewed.
pub open spec fn data_view(data: Result<Vec<u8>, String>) -> Result<Seq<u8>, Seq<char>> {
    match data {
        Ok(bytes) => Ok(bytes@),
        Err(message) => Err(message@),
    }
}

/// The view of what reading a file gave is its bytes or the text of the error.
pub proof fn lemma_data_view(data: Result<Vec<u8>, String>)
    ensures
        data matches Ok(bytes) ==> data_view(data) == Ok::<Seq<u8>, Seq<char>>(bytes@),
        data matches Err(message) ==> data_view(data) == Err::<Seq<u8>, Seq<char>>(message@),
{
}

/// The image for a path, parsed from `data` if the cache does not keep it yet. `data` is what
/// reading the file gave: its bytes, or the text of the error. `elf_path` is what messages call
/// the image. Bytes are kept for the rest of the process only if they become an image of the
/// cache, so at most once for a path.
pub fn get_elf_file(
    cache: &mut ElfCache,
    path: &[u8],
    elf_path: &str,
    data: Result<Vec<u8>, String>,
) -> (r: Result<Arc<CachedElf>, DebugError>)
    ensures
        answers(old(cache)@, path@, elf_path@, data_view(data), r, final(cache)@),
{
    if let Some(image) = cache.get(path) {
        return Ok(image);
    }
    match data {
        Err(text) => {
            let mut message = "Failed to read ELF file ".to_owned();
            message.append(elf_path);
            message.append(": ");
            message.append(text.as_str());
            Err(DebugError::RttError(message))
        },
        Ok(bytes) => {
            if let Err(text) = object_file::parse_object(bytes.as_slice()) {
                return Err(elf_parser::parse_failure(elf_path, text));
            }
            match CachedElf::parse(keep_bytes(bytes), elf_path) {
                Err(error) => Err(error),
                Ok(elf) => {
                    let image = Arc::new(elf);
                    let mut key: Vec<u8> = Vec::new();
                    key.extend_from_slice(path);
                    assert(key@ == path@);
                    cache.insert(key, share(&image));
                    Ok(image)
                },
            }
        },
    }
}

} // verus!
