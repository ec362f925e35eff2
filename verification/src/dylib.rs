//! The code modules that are loaded into the profiled process, as the
//! capture agent reports them.
use vstd::prelude::*;

verus! {

/// One loaded module: its file, the address it was loaded at, and how many
/// bytes of address space it occupies.
#[derive(Debug, PartialEq, Eq)]
pub struct Image {
    pub name: String,
    pub start_address: usize,
    pub size: usize,
}

/// One load command of a module, as far as it matters here: whether it maps
/// a segment, and how much address space the segment takes.
#[derive(Clone, Copy, Debug)]
pub struct Segment {
    pub loadable: bool,
    pub vmsize: u64,
}

/// A module as the dynamic loader describes it.
#[derive(Debug)]
pub struct RawImage {
    /// The path of the module's file, where the loader knows one.
    pub name: Option<String>,
    /// Where the module's header stands in memory.
    pub header: usize,
    pub commands: Vec<Segment>,
}

/// The address space that the mapped segments among `commands` take in sum.
pub open spec fn mapped_size(commands: Seq<Segment>) -> nat
    decreases commands.len(),
{
    if commands.len() == 0 {
        0
    } else {
        mapped_size(commands.drop_last()) + if commands.last().loadable {
            commands.last().vmsize as nat
        } else {
            0
        }
    }
}

/// `n`, or the largest machine word where `n` is beyond it.
pub open spec fn clamp(n: nat) -> usize {
    if n > usize::MAX {
        usize::MAX
    } else {
        n as usize
    }
}

/// The size of a module: the sum of the sizes of its mapped segments, held
/// at the largest machine word where the sum is beyond it.
pub fn image_size(commands: &Vec<Segment>) -> (size: usize)
    ensures
        size == clamp(mapped_size(commands@)),
{
    let mut total: usize = 0;
    let mut k: usize = 0;
    proof {
        assert(commands@.take(0) == Seq::<Segment>::empty());
    }
    while k < commands.len()
        invariant
            k <= commands@.len(),
            total == clamp(mapped_size(commands@.take(k as int))),
        decreases commands.len() - k,
    {
        proof {
            assert(commands@.take(k + 1).drop_last() == commands@.take(k as int));
            assert(commands@.take(k + 1).last() == commands@[k as int]);
        }
        let segment = commands[k];
        if segment.loadable {
            if segment.vmsize > (usize::MAX - total) as u64 {
                total = usize::MAX;
            } else {
                total = total + segment.vmsize as usize;
            }
        }
        k += 1;
    }
    proof {
        assert(commands@.take(commands@.len() as int) == commands@);
    }
    total
}

/// The image that the loader's description of one module amounts to. A
/// module without a path is named `<unknown>`.
pub open spec fn image_of(raw: RawImage) -> (Seq<char>, usize, usize) {
    (
        match raw.name {
            Some(name) => name@,
            None => "<unknown>"@,
        },
        raw.header,
        clamp(mapped_size(raw.commands@)),
    )
}

pub open spec fn image_view(image: Image) -> (Seq<char>, usize, usize) {
    (image.name@, image.start_address, image.size)
}

/// The images of the modules that the loader lists, in the loader's order.
pub fn get_images(raw: Vec<RawImage>) -> (images: Vec<Image>)
    ensures
        images@.len() == raw@.len(),
        forall|i: int| 0 <= i < raw@.len() ==> image_view(#[trigger] images@[i]) == image_of(raw@[i]),
{
    let mut raw = raw;
    let ghost all = raw@;
    let mut images: Vec<Image> = Vec::with_capacity(raw.len());
    let mut k: usize = 0;
    while k < raw.len()
        invariant
            k <= raw@.len(),
            raw@.len() == all.len(),
            images@.len() == k,
            forall|i: int| k <= i < raw@.len() ==> raw@[i] == all[i],
            forall|i: int| 0 <= i < k ==> image_view(#[trigger] images@[i]) == image_of(all[i]),
        decreases raw.len() - k,
    {
        let size = image_size(&raw[k].commands);
        let header = raw[k].header;
        let name = match raw[k].name.take() {
            Some(name) => name,
            None => String::from_str("<unknown>"),
        };
        images.push(Image { name, start_address: header, size });
        k += 1;
    }
    images
}

} // verus!
