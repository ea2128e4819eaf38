//! Conversion between the byte orders of color images.
use crate::types::{Tlg, TlgColorType};
use vstd::prelude::*;

verus! {

/// The bytes of pixels of `k` bytes with the first and the third byte of
/// each pixel exchanged, as far as the third byte is there.
pub open spec fn swapped(data: Seq<u8>, k: int) -> Seq<u8> {
    Seq::new(
        data.len(),
        |j: int|
            if j % k == 0 && j + 2 < data.len() {
                data[j + 2]
            } else if j % k == 2 {
                data[j - 2]
            } else {
                data[j]
            },
    )
}

/// Exchanges blue and red in the pixels of a color image; a grayscale image
/// stays as it is.
pub fn convert_bgr_to_rgb(data: &mut Tlg)
    ensures
        final(data).tags == old(data).tags,
        final(data).version == old(data).version,
        final(data).width == old(data).width,
        final(data).height == old(data).height,
        final(data).color == old(data).color,
        final(data).data@ == match old(data).color {
            TlgColorType::Grayscale8 => old(data).data@,
            TlgColorType::Bgr24 => swapped(old(data).data@, 3),
            TlgColorType::Bgra32 => swapped(old(data).data@, 4),
        },
{
    let k: usize = match data.color {
        TlgColorType::Bgra32 => 4,
        TlgColorType::Bgr24 => 3,
        TlgColorType::Grayscale8 => {
            return ;
        },
    };
    let ghost before = data.data@;
    let len = data.data.len();
    if len < 3 {
        assert(data.data@ =~= swapped(before, k as int));
        return ;
    }
    let mut i: usize = 0;
    while i <= len - 3
        invariant_except_break
            i % k == 0,
            i <= len,
            forall|j: int| 0 <= j < i && j < len ==> data.data@[j] == swapped(before, k as int)[j],
            forall|j: int| i <= j < len ==> data.data@[j] == before[j],
        invariant
            k == 3 || k == 4,
            len == before.len(),
            len >= 3,
            data.data.len() == len,
            data.tags == old(data).tags,
            data.version == old(data).version,
            data.width == old(data).width,
            data.height == old(data).height,
            data.color == old(data).color,
        ensures
            forall|j: int| 0 <= j < len ==> data.data@[j] == swapped(before, k as int)[j],
        decreases len - i,
    {
        let b = data.data[i];
        let r = data.data[i + 2];
        data.data[i] = r;
        data.data[i + 2] = b;
        proof {
            let kk = k as int;
            assert forall|j: int| 0 <= j < i + k && j < len implies data.data@[j] == swapped(
                before,
                kk,
            )[j] by {
                if j >= i {
                    if k == 3 {
                        assert(j % 3 == j - i);
                    } else {
                        assert(j % 4 == j - i);
                    }
                }
            }
        }
        if len - i <= k {
            break ;
        }
        i += k;
    }
    assert(data.data@ =~= swapped(before, k as int));
}

} // verus!
