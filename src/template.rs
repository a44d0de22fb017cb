//! Object templates: a reference image and the parameters it is matched with.
use vstd::prelude::*;
use crate::geometry::Scale;

verus! {

/// A decoded image: `channels` bytes per pixel (blue, green, red for colour), row by row.
#[derive(Clone, Debug)]
pub struct Image {
    pub width: usize,
    pub height: usize,
    pub channels: usize,
    pub data: Vec<u8>,
}

impl Image {
    pub open spec fn wf(&self) -> bool {
        self.data@.len() == self.width * self.height * self.channels
    }

    pub open spec fn is_empty(&self) -> bool {
        self.width == 0 || self.height == 0
    }

    /// Offset in `data` of the first byte of pixel `(x, y)`.
    pub open spec fn offset(&self, x: int, y: int) -> int {
        (y * self.width + x) * self.channels
    }

    /// The blue, green and red bytes of pixel `(x, y)` of a colour image; `None` where
    /// the position lies outside the image.
    pub fn get_pixel_safe(&self, x: i32, y: i32) -> (r: Option<[u8; 3]>)
        requires
            self.wf(),
            self.channels == 3,
        ensures
            match r {
                Some(p) => {
                    &&& 0 <= x < self.width && 0 <= y < self.height
                    &&& p@ == self.data@.subrange(self.offset(x as int, y as int), self.offset(x as int, y as int) + 3)
                },
                None => !(0 <= x < self.width && 0 <= y < self.height),
            },
    {
        if x < 0 || y < 0 || x as usize >= self.width || y as usize >= self.height {
            return None;
        }
        let (xu, yu) = (x as usize, y as usize);
        let n = self.data.len();
        proof {
            let (w, h, xi, yi) = (self.width as int, self.height as int, xu as int, yu as int);
            assert(0 <= yi * w && 0 <= (yi * w + xi) * 3 && (yi * w + xi) * 3 + 3 <= w * h * 3) by (nonlinear_arith)
                requires
                    0 <= xi < w,
                    0 <= yi < h,
            ;
            assert(n == w * h * 3);
        }
        let i = (yu * self.width + xu) * 3;
        let p = [self.data[i], self.data[i + 1], self.data[i + 2]];
        assert(p@ =~= self.data@.subrange(i as int, i + 3));
        Some(p)
    }
}

/// Whether a blue, green, red pixel has the colour of the game board behind the objects
/// (about 154, 195, 161), which templates must not match on.
pub open spec fn is_backdrop(b: u8, g: u8, r: u8) -> bool {
    150 <= b <= 158 && 190 <= g <= 200 && 150 <= r <= 158
}

/// The colour image `data` with every backdrop pixel turned black.
pub open spec fn without_backdrop(data: Seq<u8>) -> Seq<u8> {
    Seq::new(
        data.len(),
        |k: int|
            {
                let i = k - k % 3;
                if i + 2 < data.len() && is_backdrop(data[i], data[i + 1], data[i + 2]) {
                    0u8
                } else {
                    data[k]
                }
            },
    )
}

/// Turns every backdrop pixel of a colour image black.
pub fn remove_backdrop(image: &mut Image)
    requires
        old(image).wf(),
        old(image).channels == 3,
    ensures
        final(image).width == old(image).width,
        final(image).height == old(image).height,
        final(image).channels == 3,
        final(image).data@ == without_backdrop(old(image).data@),
        final(image).wf(),
{
    let ghost start = image.data@;
    let n = image.data.len();
    let mut i: usize = 0;
    while n - i >= 3
        invariant
            n == image.data@.len(),
            n == start.len(),
            i % 3 == 0,
            i <= n,
            image.width == old(image).width,
            image.height == old(image).height,
            image.channels == 3,
            start == old(image).data@,
            forall|k: int| 0 <= k < i ==> #[trigger] image.data@[k] == without_backdrop(start)[k],
            forall|k: int| i <= k < n ==> #[trigger] image.data@[k] == start[k],
        decreases n - i,
    {
        let b = image.data[i];
        let g = image.data[i + 1];
        let r = image.data[i + 2];
        if 150 <= b && b <= 158 && 190 <= g && g <= 200 && 150 <= r && r <= 158 {
            image.data.set(i, 0);
            image.data.set(i + 1, 0);
            image.data.set(i + 2, 0);
        }
        proof {
            assert forall|k: int| i <= k < i + 3 implies #[trigger] image.data@[k] == without_backdrop(start)[k] by {
                assert(k - k % 3 == i);
            }
        }
        i = i + 3;
    }
    proof {
        assert forall|k: int| i <= k < n implies #[trigger] image.data@[k] == without_backdrop(start)[k] by {
            assert(k - k % 3 == i);
        }
        assert(image.data@ =~= without_backdrop(start));
    }
}

/// Why a template cannot be registered.
#[derive(Clone, Copy, Debug, PartialEq, Eq, Structural)]
pub enum TemplateError {
    /// The image is missing, empty, or not a colour image; or the grayscale variant does
    /// not match it.
    ImageLoad,
}

/// A reference image of one kind of object and the parameters it is matched with.
///
/// Scores and the threshold are in units of `SCORE_ONE`; `min_distance` is in pixels of
/// the full-size frame; `resolution` overrides the detector's scale for this template.
#[derive(Clone, Debug)]
pub struct ObjectTemplate {
    pub name: String,
    pub template: Image,
    pub gray_template: Image,
    pub threshold: u32,
    pub min_distance: u32,
    pub red: u8,
    pub green: u8,
    pub blue: u8,
    pub resolution: Option<Scale>,
    pub always_active: bool,
}

/// Whether `image` and `gray` are a usable colour template and its grayscale variant.
pub open spec fn images_ok(image: &Image, gray: &Image) -> bool {
    &&& image.wf() && gray.wf()
    &&& !image.is_empty()
    &&& image.channels == 3
    &&& gray.channels == 1
    &&& gray.width == image.width
    &&& gray.height == image.height
}

impl ObjectTemplate {
    pub open spec fn wf(&self) -> bool {
        images_ok(&self.template, &self.gray_template)
    }

    /// A template named `name` from a decoded colour image and its grayscale variant.
    /// Backdrop pixels of the colour image are turned black; `gray_template` should be
    /// derived from the image after that step.
    pub fn new(
        name: &str,
        template: Image,
        gray_template: Image,
        threshold: u32,
        min_distance: u32,
        red: u8,
        green: u8,
        blue: u8,
        resolution: Option<Scale>,
        always_active: bool,
    ) -> (r: Result<ObjectTemplate, TemplateError>)
        ensures
            match r {
                Ok(t) => {
                    &&& images_ok(&template, &gray_template)
                    &&& t.wf()
                    &&& t.name@ == name@
                    &&& t.template.width == template.width
                    &&& t.template.height == template.height
                    &&& t.template.channels == 3
                    &&& t.template.data@ == without_backdrop(template.data@)
                    &&& t.gray_template == gray_template
                    &&& t.threshold == threshold
                    &&& t.min_distance == min_distance
                    &&& t.red == red && t.green == green && t.blue == blue
                    &&& t.resolution == resolution
                    &&& t.always_active == always_active
                },
                Err(e) => e == TemplateError::ImageLoad && !images_ok(&template, &gray_template),
            },
    {
        let ok_shape = template.width != 0 && template.height != 0 && template.channels == 3
            && gray_template.channels == 1 && gray_template.width == template.width
            && gray_template.height == template.height;
        if !ok_shape {
            return Err(TemplateError::ImageLoad);
        }
        let ok_len = checked_area(template.width, template.height, 3) == Some(template.data.len())
            && checked_area(gray_template.width, gray_template.height, 1) == Some(
            gray_template.data.len(),
        );
        if !ok_len {
            return Err(TemplateError::ImageLoad);
        }
        let mut image = template;
        remove_backdrop(&mut image);
        Ok(
            ObjectTemplate {
                name: String::from_str(name),
                template: image,
                gray_template,
                threshold,
                min_distance,
                red,
                green,
                blue,
                resolution,
                always_active,
            },
        )
    }
}

/// `w * h * c`, where it fits in `usize`.
fn checked_area(w: usize, h: usize, c: usize) -> (r: Option<usize>)
    ensures
        match r {
            Some(v) => v == w * h * c,
            None => w * h * c > usize::MAX,
        },
{
    match w.checked_mul(h) {
        None => {
            proof {
                assert(w * h * c > usize::MAX || c == 0) by (nonlinear_arith)
                    requires
                        w * h > usize::MAX,
                ;
                if c == 0 {
                    assert(w * h * c == 0) by (nonlinear_arith)
                        requires
                            c == 0,
                    ;
                }
            }
            if c == 0 {
                Some(0)
            } else {
                None
            }
        },
        Some(wh) => match wh.checked_mul(c) {
            None => None,
            Some(v) => Some(v),
        },
    }
}

} // verus!
