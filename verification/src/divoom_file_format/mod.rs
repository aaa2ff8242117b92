use indexmap::IndexSet;
use vstd::prelude::*;

pub mod animation;
pub mod frame;
pub mod frame_header;
pub mod gif;
pub mod picture;
pub mod pixel_bits;

use self::picture::Image;

verus! {

#[verifier::external_type_specification]
#[verifier::external_body]
#[verifier::reject_recursive_types(T)]
#[verifier::reject_recursive_types(S)]
pub struct ExIndexSet<T, S>(IndexSet<T, S>);

/// The colours, as red, green and blue, that an `IndexSet` holds, in the order
/// of their insertion.
pub uninterp spec fn color_set_items(set: IndexSet<(u8, u8, u8)>) -> Seq<(u8, u8, u8)>;

/// Calls `IndexSet::new`: the set is empty.
#[verifier::external_body]
fn color_set_new() -> (set: IndexSet<(u8, u8, u8)>)
    ensures
        color_set_items(set) == Seq::<(u8, u8, u8)>::empty(),
{
    IndexSet::new()
}

/// Calls `IndexSet::insert`: a colour not yet in the set goes at its end and
/// `true` is returned; otherwise the set stays as it is and `false` is
/// returned.
#[verifier::external_body]
fn color_set_insert(set: &mut IndexSet<(u8, u8, u8)>, color: (u8, u8, u8)) -> (added: bool)
    ensures
        added == !color_set_items(*old(set)).contains(color),
        color_set_items(*final(set)) == if added {
            color_set_items(*old(set)).push(color)
        } else {
            color_set_items(*old(set))
        },
{
    set.insert(color)
}

/// Calls `IndexSet::len`: the number of colours in the set.
#[verifier::external_body]
pub(crate) fn color_set_len(set: &IndexSet<(u8, u8, u8)>) -> (n: usize)
    ensures
        n == color_set_items(*set).len(),
{
    set.len()
}

/// Calls `IndexSet::get_index`: the colour at `index` in insertion order, if
/// there is one.
#[verifier::external_body]
pub(crate) fn color_set_get(set: &IndexSet<(u8, u8, u8)>, index: usize) -> (color: Option<(u8, u8, u8)>)
    ensures
        index < color_set_items(*set).len() ==> color == Some(color_set_items(*set)[index as int]),
        index >= color_set_items(*set).len() ==> color is None,
{
    set.get_index(index).copied()
}

/// Each element of `s` at its first occurrence, in order.
pub open spec fn first_occurrences(s: Seq<(u8, u8, u8)>) -> Seq<(u8, u8, u8)>
    decreases s.len(),
{
    if s.len() == 0 {
        Seq::empty()
    } else {
        let before = first_occurrences(s.drop_last());
        if before.contains(s.last()) {
            before
        } else {
            before.push(s.last())
        }
    }
}

/// The colours of the pixels of `image`, row by row.
pub open spec fn pixel_colors(image: Image) -> Seq<(u8, u8, u8)> {
    image.pixels@.map_values(|p: self::picture::Rgba| (p.red, p.green, p.blue))
}

/// The colours of the pixels of all `images`, image after image.
pub open spec fn all_pixel_colors(images: Seq<Image>) -> Seq<(u8, u8, u8)>
    decreases images.len(),
{
    if images.len() == 0 {
        Seq::empty()
    } else {
        all_pixel_colors(images.drop_last()) + pixel_colors(images.last())
    }
}

/// The distinct colours of the pixels of `images`, in the order in which they
/// first appear, image after image, row by row.
pub fn get_palette_from_images(images: &[Image]) -> (palette: IndexSet<(u8, u8, u8)>)
    ensures
        color_set_items(palette) == first_occurrences(all_pixel_colors(images@)),
{
    let mut set = color_set_new();
    let mut k: usize = 0;
    while k < images.len()
        invariant
            k <= images@.len(),
            color_set_items(set) == first_occurrences(all_pixel_colors(images@.take(k as int))),
        decreases images@.len() - k,
    {
        let image = &images[k];
        let ghost done = all_pixel_colors(images@.take(k as int));
        let mut p: usize = 0;
        while p < image.pixels.len()
            invariant
                p <= image.pixels@.len(),
                color_set_items(set) == first_occurrences(done + pixel_colors(*image).take(p as int)),
            decreases image.pixels@.len() - p,
        {
            let pixel = image.pixels[p];
            let ghost before = done + pixel_colors(*image).take(p as int);
            color_set_insert(&mut set, (pixel.red, pixel.green, pixel.blue));
            p = p + 1;
            assert((done + pixel_colors(*image).take(p as int)).drop_last() =~= before);
        }
        assert(pixel_colors(*image).take(p as int) =~= pixel_colors(*image));
        assert(images@.take(k + 1).drop_last() =~= images@.take(k as int));
        k = k + 1;
    }
    assert(images@.take(k as int) =~= images@);
    set
}

} // verus!
