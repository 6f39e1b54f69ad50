//! The render pipeline's decisions: what each key shows, and the two caches
//! (rendered buttons by renderer hash, decoded images by path hash).
//!
//! Drawing text and reading image files happen outside; each key goes
//! through [`RendererState::begin_key`], then, for an image background,
//! [`RendererState::background_loaded`], then [`RendererState::finish_key`].
use std::collections::HashMap;
use std::collections::hash_map::DefaultHasher;
use std::hash::Hasher;
use image::{DynamicImage, Rgba, RgbaImage};
use vstd::prelude::*;
use vstd::std_specs::hash::DefaultHasherAdditionalSpecFns;
use vstd::utf8::encode_utf8;

verus! {

broadcast use vstd::std_specs::hash::group_hash_axioms;

/// Red, green, blue, alpha.
pub type Color = (u8, u8, u8, u8);

/// Background of a rendered button.
pub enum ButtonBackground {
    Solid(Color),
    HorizontalGradient(Color, Color),
    VerticalGradient(Color, Color),
    /// An image file, and whether to bypass the image cache for it.
    Image(String, bool),
}

impl Default for ButtonBackground {
    fn default() -> (r: Self)
        ensures
            r == ButtonBackground::Solid((0, 0, 0, 0)),
    {
        ButtonBackground::Solid((0, 0, 0, 0))
    }
}

/// Horizontal placement of a text.
pub enum TextAlignment {
    Left,
    Center,
    Right,
}

/// Drop shadow drawn under a text.
pub struct ButtonTextShadow {
    pub offset: (i32, i32),
    pub color: Color,
}

/// A text drawn on a button. Scale and offset are IEEE-754 single precision
/// values, kept as their bit patterns.
pub struct ButtonText {
    pub text: String,
    pub font: String,
    pub scale: (u32, u32),
    pub alignment: TextAlignment,
    pub padding: u32,
    pub offset: (u32, u32),
    pub color: Color,
    pub shadow: Option<ButtonTextShadow>,
}

/// The `renderer` component of a button: what its key shows.
pub struct RendererComponent {
    pub background: ButtonBackground,
    pub text: Vec<ButtonText>,
    /// The rendered image may be kept in the render cache.
    pub to_cache: bool,
    /// Name of a custom renderer; empty for the standard one.
    pub renderer: String,
    /// Modules that may not decorate this button.
    pub plugin_blacklist: Vec<String>,
}

/// The default of a missing caching flag.
pub fn make_true() -> (r: bool)
    ensures
        r,
{
    true
}

impl Default for RendererComponent {
    fn default() -> (r: Self)
        ensures
            r.background == ButtonBackground::Solid((255, 255, 255, 255)),
            r.text@.len() == 0,
            r.to_cache,
            r.renderer@.len() == 0,
            r.plugin_blacklist@.len() == 0,
    {
        RendererComponent {
            background: ButtonBackground::Solid((255, 255, 255, 255)),
            text: Vec::new(),
            to_cache: make_true(),
            renderer: String::new(),
            plugin_blacklist: Vec::new(),
        }
    }
}

/// Big-endian bytes of a 32-bit value.
pub open spec fn u32_bytes(x: u32) -> Seq<u8> {
    seq![(x >> 24u32) as u8, (x >> 16u32) as u8, (x >> 8u32) as u8, x as u8]
}

/// The bytes written for a color.
pub open spec fn color_bytes(c: Color) -> Seq<u8> {
    seq![c.0, c.1, c.2, c.3]
}

/// The writes that hash a background.
pub open spec fn background_writes(b: ButtonBackground) -> Seq<Seq<u8>> {
    match b {
        ButtonBackground::Solid(c) => seq![seq![0u8], color_bytes(c)],
        ButtonBackground::HorizontalGradient(a, c) => seq![seq![1u8], color_bytes(a), color_bytes(c)],
        ButtonBackground::VerticalGradient(a, c) => seq![seq![2u8], color_bytes(a), color_bytes(c)],
        ButtonBackground::Image(p, d) => seq![seq![3u8], encode_utf8(p@), seq![if d { 1u8 } else { 0u8 }]],
    }
}

/// The byte written for an alignment.
pub open spec fn alignment_byte(a: TextAlignment) -> u8 {
    match a {
        TextAlignment::Left => 0,
        TextAlignment::Center => 1,
        TextAlignment::Right => 2,
    }
}

/// The writes that hash one text.
pub open spec fn text_writes(t: ButtonText) -> Seq<Seq<u8>> {
    seq![
        encode_utf8(t.text@),
        encode_utf8(t.font@),
        u32_bytes(t.scale.0) + u32_bytes(t.scale.1),
        seq![alignment_byte(t.alignment)],
        u32_bytes(t.padding),
        u32_bytes(t.offset.0) + u32_bytes(t.offset.1),
        color_bytes(t.color),
    ] + match t.shadow {
        Some(s) => seq![seq![1u8], u32_bytes(s.offset.0 as u32) + u32_bytes(s.offset.1 as u32), color_bytes(s.color)],
        None => seq![seq![0u8]],
    }
}

/// The writes that hash a list of texts.
pub open spec fn texts_writes(ts: Seq<ButtonText>) -> Seq<Seq<u8>>
    decreases ts.len(),
{
    if ts.len() == 0 {
        Seq::empty()
    } else {
        texts_writes(ts.drop_last()) + text_writes(ts.last())
    }
}

/// The writes that hash a renderer component: everything that decides
/// how the button looks.
pub open spec fn renderer_writes(c: &RendererComponent) -> Seq<Seq<u8>> {
    background_writes(c.background) + seq![u32_bytes(c.text@.len() as u32)] + texts_writes(c.text@)
        + seq![seq![if c.to_cache { 1u8 } else { 0u8 }], encode_utf8(c.renderer@)]
}

/// The render cache key of a renderer component.
pub open spec fn renderer_hash(c: &RendererComponent) -> u64 {
    DefaultHasher::spec_finish(renderer_writes(c))
}

/// The image cache key of a path.
pub open spec fn path_hash(path: Seq<char>) -> u64 {
    DefaultHasher::spec_finish(seq![encode_utf8(path)])
}

fn write_u32(h: &mut DefaultHasher, x: u32)
    ensures
        final(h)@ == old(h)@.push(u32_bytes(x)),
{
    let v: Vec<u8> = vec![(x >> 24u32) as u8, (x >> 16u32) as u8, (x >> 8u32) as u8, x as u8];
    assert(v@ =~= u32_bytes(x));
    h.write(v.as_slice());
}

fn write_pair(h: &mut DefaultHasher, x: u32, y: u32)
    ensures
        final(h)@ == old(h)@.push(u32_bytes(x) + u32_bytes(y)),
{
    let v: Vec<u8> = vec![
        (x >> 24u32) as u8, (x >> 16u32) as u8, (x >> 8u32) as u8, x as u8,
        (y >> 24u32) as u8, (y >> 16u32) as u8, (y >> 8u32) as u8, y as u8,
    ];
    assert(v@ =~= u32_bytes(x) + u32_bytes(y));
    h.write(v.as_slice());
}

fn write_byte(h: &mut DefaultHasher, b: u8)
    ensures
        final(h)@ == old(h)@.push(seq![b]),
{
    let v: Vec<u8> = vec![b];
    assert(v@ =~= seq![b]);
    h.write(v.as_slice());
}

fn write_color(h: &mut DefaultHasher, c: Color)
    ensures
        final(h)@ == old(h)@.push(color_bytes(c)),
{
    let v: Vec<u8> = vec![c.0, c.1, c.2, c.3];
    assert(v@ =~= color_bytes(c));
    h.write(v.as_slice());
}

fn write_text(h: &mut DefaultHasher, s: &String)
    ensures
        final(h)@ == old(h)@.push(encode_utf8(s@)),
{
    h.write(s.as_str().as_bytes());
}

fn write_button_text(h: &mut DefaultHasher, t: &ButtonText)
    ensures
        final(h)@ == old(h)@ + text_writes(*t),
{
    let ghost h0 = h@;
    write_text(h, &t.text);
    write_text(h, &t.font);
    write_pair(h, t.scale.0, t.scale.1);
    let a: u8 = match t.alignment {
        TextAlignment::Left => 0,
        TextAlignment::Center => 1,
        TextAlignment::Right => 2,
    };
    write_byte(h, a);
    write_u32(h, t.padding);
    write_pair(h, t.offset.0, t.offset.1);
    write_color(h, t.color);
    match &t.shadow {
        Some(s) => {
            write_byte(h, 1);
            write_pair(h, s.offset.0 as u32, s.offset.1 as u32);
            write_color(h, s.color);
        },
        None => {
            write_byte(h, 0);
        },
    }
    assert(h@ =~= h0 + text_writes(*t));
}

impl ButtonText {
    /// The 64-bit hash of a text: every field, scale and offset included.
    pub fn text_hash(&self) -> (r: u64)
        ensures
            r == DefaultHasher::spec_finish(text_writes(*self)),
    {
        let mut h = DefaultHasher::new();
        write_button_text(&mut h, self);
        assert(h@ =~= text_writes(*self));
        h.finish()
    }
}

/// The 64-bit hash of a renderer component, the key of the render cache.
pub fn hash_renderer(renderer: &RendererComponent) -> (r: u64)
    ensures
        r == renderer_hash(renderer),
{
    let mut h = DefaultHasher::new();
    match &renderer.background {
        ButtonBackground::Solid(c) => {
            write_byte(&mut h, 0);
            write_color(&mut h, *c);
        },
        ButtonBackground::HorizontalGradient(a, b) => {
            write_byte(&mut h, 1);
            write_color(&mut h, *a);
            write_color(&mut h, *b);
        },
        ButtonBackground::VerticalGradient(a, b) => {
            write_byte(&mut h, 2);
            write_color(&mut h, *a);
            write_color(&mut h, *b);
        },
        ButtonBackground::Image(p, d) => {
            write_byte(&mut h, 3);
            write_text(&mut h, p);
            write_byte(&mut h, if *d { 1 } else { 0 });
        },
    }
    assert(h@ =~= background_writes(renderer.background));
    write_u32(&mut h, renderer.text.len() as u32);
    let ghost h1 = h@;
    let mut i: usize = 0;
    while i < renderer.text.len()
        invariant
            i <= renderer.text@.len(),
            h@ == h1 + texts_writes(renderer.text@.subrange(0, i as int)),
        decreases renderer.text@.len() - i,
    {
        write_button_text(&mut h, &renderer.text[i]);
        assert(renderer.text@.subrange(0, i + 1).drop_last() =~= renderer.text@.subrange(0, i as int));
        i += 1;
        assert(h@ =~= h1 + texts_writes(renderer.text@.subrange(0, i as int)));
    }
    assert(renderer.text@.subrange(0, i as int) =~= renderer.text@);
    write_byte(&mut h, if renderer.to_cache { 1 } else { 0 });
    write_text(&mut h, &renderer.renderer);
    assert(h@ =~= renderer_writes(renderer));
    h.finish()
}

/// The 64-bit hash of an image path, the key of the image cache.
pub(crate) fn hash_path(path: &String) -> (r: u64)
    ensures
        r == path_hash(path@),
{
    let mut h = DefaultHasher::new();
    write_text(&mut h, path);
    assert(h@ =~= seq![encode_utf8(path@)]);
    h.finish()
}

#[verifier::external_type_specification]
#[verifier::external_body]
pub struct ExDynamicImage(DynamicImage);

/// Relies on the derived `Clone` of image's `DynamicImage`: an equal image.
pub assume_specification[ <DynamicImage as Clone>::clone ](img: &DynamicImage) -> (r: DynamicImage)
    ensures
        r == *img,
;

/// An image size whose RGBA buffer length fits in memory addresses.
pub open spec fn size_fits(size: (u32, u32)) -> bool {
    4 * (size.0 as int) * (size.1 as int) <= usize::MAX
}

/// The color of pixel `(x, y)` of an image, as image's `get_pixel` reads
/// it in RGBA.
pub uninterp spec fn pixel_of(img: DynamicImage, x: u32, y: u32) -> Color;

/// Width and height of an image, as image's `dimensions` reads them.
pub uninterp spec fn dims_of(img: DynamicImage) -> (u32, u32);

/// The image is image's `DynamicImage::ImageRgba8` variant: 8-bit RGBA.
pub uninterp spec fn is_rgba8(img: DynamicImage) -> bool;

/// The color image's `horizontal_gradient` gives column `x` of an image
/// `width` wide, from `start` to `end`.
pub uninterp spec fn hgrad_of(start: Color, end: Color, x: u32, width: u32) -> Color;

/// The color image's `vertical_gradient` gives row `y` of an image `height`
/// high, from `start` to `end`.
pub uninterp spec fn vgrad_of(start: Color, end: Color, y: u32, height: u32) -> Color;

/// An image fit to show on a key of size `size`: that size, in RGBA8.
pub open spec fn key_image(img: DynamicImage, size: (u32, u32)) -> bool {
    dims_of(img) == size && is_rgba8(img)
}

/// Every pixel of an image of size `size` is `color`.
pub open spec fn filled_with(img: DynamicImage, size: (u32, u32), color: Color) -> bool {
    forall|x: u32, y: u32| x < size.0 && y < size.1 ==> #[trigger] pixel_of(img, x, y) == color
}

/// Relies on image's `RgbaImage::from_pixel`: an image of that size, every
/// pixel the given color.
#[verifier::external_body]
fn image_from_solid(size: (u32, u32), color: Color) -> (r: DynamicImage)
    requires
        size_fits(size),
    ensures
        dims_of(r) == size,
        is_rgba8(r),
        forall|x: u32, y: u32| x < size.0 && y < size.1 ==> #[trigger] pixel_of(r, x, y) == color,
{
    DynamicImage::ImageRgba8(RgbaImage::from_pixel(size.0, size.1, Rgba([color.0, color.1, color.2, color.3])))
}

/// Relies on image's `imageops::horizontal_gradient`: a left-to-right linear
/// gradient over a new image of that size.
#[verifier::external_body]
fn image_from_horiz_gradient(size: (u32, u32), start: Color, end: Color) -> (r: DynamicImage)
    requires
        size_fits(size),
        size.0 != 1,
    ensures
        dims_of(r) == size,
        is_rgba8(r),
        forall|x: u32, y: u32| x < size.0 && y < size.1 ==> #[trigger] pixel_of(r, x, y) == hgrad_of(start, end, x, size.0),
{
    let mut img = RgbaImage::new(size.0, size.1);
    image::imageops::horizontal_gradient(&mut img, &Rgba([start.0, start.1, start.2, start.3]), &Rgba([end.0, end.1, end.2, end.3]));
    DynamicImage::ImageRgba8(img)
}

/// Relies on image's `imageops::vertical_gradient`: a top-to-bottom linear
/// gradient over a new image of that size.
#[verifier::external_body]
fn image_from_vert_gradient(size: (u32, u32), start: Color, end: Color) -> (r: DynamicImage)
    requires
        size_fits(size),
        size.1 != 1,
    ensures
        dims_of(r) == size,
        is_rgba8(r),
        forall|x: u32, y: u32| x < size.0 && y < size.1 ==> #[trigger] pixel_of(r, x, y) == vgrad_of(start, end, y, size.1),
{
    let mut img = RgbaImage::new(size.0, size.1);
    image::imageops::vertical_gradient(&mut img, &Rgba([start.0, start.1, start.2, start.3]), &Rgba([end.0, end.1, end.2, end.3]));
    DynamicImage::ImageRgba8(img)
}

/// Color of pixel `(x, y)` of the missing-texture pattern: magenta on the
/// top-left and bottom-right 8x8 squares of each 16x16 tile, black elsewhere.
pub open spec fn missing_tile_color_spec(x: u32, y: u32) -> Color {
    if ((x % 16) < 8) == ((y % 16) < 8) { (255u8, 0u8, 255u8, 255u8) } else { (0u8, 0u8, 0u8, 255u8) }
}

/// Color of pixel `(x, y)` of the missing-texture pattern.
pub fn missing_tile_color(x: u32, y: u32) -> (r: Color)
    ensures
        r == missing_tile_color_spec(x, y),
{
    if ((x % 16) < 8) == ((y % 16) < 8) {
        (255, 0, 255, 255)
    } else {
        (0, 0, 0, 255)
    }
}

/// Relies on image's `RgbaImage::from_fn`: an image of that size whose pixel
/// `(x, y)` is `missing_tile_color(x, y)`.
#[verifier::external_body]
fn tiled_image(size: (u32, u32)) -> (r: DynamicImage)
    requires
        size_fits(size),
    ensures
        dims_of(r) == size,
        is_rgba8(r),
        forall|x: u32, y: u32| x < size.0 && y < size.1 ==> #[trigger] pixel_of(r, x, y) == missing_tile_color_spec(x, y),
{
    DynamicImage::ImageRgba8(RgbaImage::from_fn(size.0, size.1, |x, y| {
        let c = missing_tile_color(x, y);
        Rgba([c.0, c.1, c.2, c.3])
    }))
}

/// The base of the missing-texture image: a magenta and black chequered pattern of
/// 8x8 squares over the whole key. Its labels are drawn on top of it by
/// the caller, which owns the fonts.
pub fn draw_missing_texture(size: (u32, u32)) -> (r: DynamicImage)
    requires
        size_fits(size),
    ensures
        key_image(r, size),
        forall|x: u32, y: u32| x < size.0 && y < size.1 ==> #[trigger] pixel_of(r, x, y) == missing_tile_color_spec(x, y),
{
    tiled_image(size)
}

/// Handle for asking the render worker of a device to redraw. Requests
/// coalesce: any number of them between two passes yields one pass.
pub struct RendererHandle {
    pending: bool,
}

/// What the render worker does next.
pub enum WorkerAction {
    /// Render every key of the current screen.
    Redraw,
    /// Wait for the next request.
    Wait,
    /// The daemon is shutting down: stop.
    Exit,
}

impl RendererHandle {
    /// Whether a redraw has been asked for and not yet started.
    pub closed spec fn is_pending(&self) -> bool {
        self.pending
    }

    /// A handle for a newly started worker, which first draws the screen once.
    pub fn new() -> (r: RendererHandle)
        ensures
            r.is_pending(),
    {
        RendererHandle { pending: true }
    }

    /// Asks the rendering worker to redraw the current screen.
    pub fn redraw(&mut self)
        ensures
            final(self).is_pending(),
    {
        self.pending = true;
    }

    /// The worker's next step: stop once the daemon is closed, else render
    /// once for all the requests made since the last pass.
    pub fn next_action(&mut self, closed: bool) -> (r: WorkerAction)
        ensures
            closed ==> r is Exit && final(self).is_pending() == old(self).is_pending(),
            !closed && old(self).is_pending() ==> r is Redraw && !final(self).is_pending(),
            !closed && !old(self).is_pending() ==> r is Wait && !final(self).is_pending(),
    {
        if closed {
            WorkerAction::Exit
        } else if self.pending {
            self.pending = false;
            WorkerAction::Redraw
        } else {
            WorkerAction::Wait
        }
    }
}

/// How a key is shown in a preview for clients.
pub enum PreviewStep {
    /// No renderer component: a black key.
    Blank,
    /// The named custom renderer draws it, or its placeholder stands in.
    Custom(String),
    /// Drawn as the device draws it.
    Draw,
}

/// Decides how to preview a key whose button has the given renderer
/// component, if any.
pub fn preview_step(renderer: Option<&RendererComponent>) -> (r: PreviewStep)
    ensures
        match renderer {
            None => r is Blank,
            Some(c) => if c.renderer@.len() > 0 {
                r matches PreviewStep::Custom(n) && n@ == c.renderer@
            } else {
                r is Draw
            },
        },
{
    match renderer {
        None => PreviewStep::Blank,
        Some(c) => {
            if c.renderer.as_str().unicode_len() > 0 {
                PreviewStep::Custom(c.renderer.clone())
            } else {
                PreviewStep::Draw
            }
        },
    }
}

/// A command for the device's transport.
pub enum StreamDeckCommand {
    ClearButtonImage(u8),
    SetButtonImage(u8, DynamicImage),
}

/// The first step of rendering one key.
pub enum KeyStep {
    /// No renderer component: the key is cleared.
    Clear,
    /// The render cache holds the finished image.
    Cached(DynamicImage),
    /// The background is ready: draw the texts on it, then finish the key.
    Compose { hash: u64, background: DynamicImage },
    /// The background image file must be read first.
    Load { hash: u64, path: String, path_hash: u64, disable_caching: bool },
    /// A custom renderer of that name draws the key; where it draws nothing,
    /// the custom-renderer placeholder stands in.
    Custom { hash: u64, renderer: String },
}

/// The caches of the render worker of one device. Neither evicts.
pub struct RendererState {
    /// Finished images by renderer hash.
    pub render_cache: HashMap<u64, DynamicImage>,
    /// Decoded background images by path hash.
    pub image_cache: HashMap<u64, DynamicImage>,
    /// Width and height of a key image.
    pub image_size: (u32, u32),
}

impl RendererState {
    /// The key size fits in memory, and both caches hold only images of
    /// that size in RGBA8.
    pub open spec fn wf(&self) -> bool {
        &&& size_fits(self.image_size)
        &&& forall|h: u64| #[trigger] self.render_cache@.contains_key(h) ==> key_image(self.render_cache@[h], self.image_size)
        &&& forall|h: u64| #[trigger] self.image_cache@.contains_key(h) ==> key_image(self.image_cache@[h], self.image_size)
    }

    /// Creates empty caches for keys of the given size.
    pub fn new(image_size: (u32, u32)) -> (r: RendererState)
        requires
            size_fits(image_size),
        ensures
            r.render_cache@ == Map::<u64, DynamicImage>::empty(),
            r.image_cache@ == Map::<u64, DynamicImage>::empty(),
            r.image_size == image_size,
            r.wf(),
    {
        RendererState { render_cache: HashMap::new(), image_cache: HashMap::new(), image_size }
    }

    /// Decides how to start rendering a key whose button has the given
    /// renderer component, if any.
    pub fn begin_key(&self, renderer: Option<&RendererComponent>) -> (r: KeyStep)
        requires
            self.wf(),
        ensures
            r matches KeyStep::Cached(img) ==> key_image(img, self.image_size),
            r matches KeyStep::Compose { background, .. } ==> key_image(background, self.image_size),
            match renderer {
                None => r is Clear,
                Some(c) => {
                    let h = renderer_hash(c);
                    if c.to_cache && self.render_cache@.contains_key(h) {
                        r == KeyStep::Cached(self.render_cache@[h])
                    } else if c.renderer@.len() > 0 {
                        r matches KeyStep::Custom { hash, renderer } && hash == h && renderer@ == c.renderer@
                    } else {
                        match c.background {
                            ButtonBackground::Image(p, d) => {
                                let ph = path_hash(p@);
                                if !d && self.image_cache@.contains_key(ph) {
                                    r == KeyStep::Compose { hash: h, background: self.image_cache@[ph] }
                                } else {
                                    r matches KeyStep::Load { hash, path, path_hash, disable_caching }
                                        && hash == h && path@ == p@ && path_hash == ph && disable_caching == d
                                }
                            },
                            ButtonBackground::Solid(color) => r matches KeyStep::Compose { hash, background }
                                && hash == h && filled_with(background, self.image_size, color),
                            ButtonBackground::HorizontalGradient(a, e) => r matches KeyStep::Compose { hash, background }
                                && hash == h && if self.image_size.0 == 1 {
                                    filled_with(background, self.image_size, a)
                                } else {
                                    forall|x: u32, y: u32| x < self.image_size.0 && y < self.image_size.1
                                        ==> #[trigger] pixel_of(background, x, y) == hgrad_of(a, e, x, self.image_size.0)
                                },
                            ButtonBackground::VerticalGradient(a, e) => r matches KeyStep::Compose { hash, background }
                                && hash == h && if self.image_size.1 == 1 {
                                    filled_with(background, self.image_size, a)
                                } else {
                                    forall|x: u32, y: u32| x < self.image_size.0 && y < self.image_size.1
                                        ==> #[trigger] pixel_of(background, x, y) == vgrad_of(a, e, y, self.image_size.1)
                                },
                        }
                    }
                },
            },
    {
        let c = match renderer {
            Some(c) => c,
            None => return KeyStep::Clear,
        };
        let h = hash_renderer(c);
        if c.to_cache {
            match self.render_cache.get(&h) {
                Some(img) => return KeyStep::Cached(img.clone()),
                None => {},
            }
        }
        if c.renderer.as_str().unicode_len() > 0 {
            return KeyStep::Custom { hash: h, renderer: c.renderer.clone() };
        }
        let size = self.image_size;
        match &c.background {
            ButtonBackground::Solid(color) => KeyStep::Compose { hash: h, background: image_from_solid(size, *color) },
            ButtonBackground::HorizontalGradient(a, b) => {
                // A gradient across one column is its starting color.
                let bg = if size.0 == 1 { image_from_solid(size, *a) } else { image_from_horiz_gradient(size, *a, *b) };
                KeyStep::Compose { hash: h, background: bg }
            },
            ButtonBackground::VerticalGradient(a, b) => {
                // A gradient across one row is its starting color.
                let bg = if size.1 == 1 { image_from_solid(size, *a) } else { image_from_vert_gradient(size, *a, *b) };
                KeyStep::Compose { hash: h, background: bg }
            },
            ButtonBackground::Image(p, d) => {
                let ph = hash_path(p);
                if !*d {
                    match self.image_cache.get(&ph) {
                        Some(img) => return KeyStep::Compose { hash: h, background: img.clone() },
                        None => {},
                    }
                }
                KeyStep::Load { hash: h, path: p.clone(), path_hash: ph, disable_caching: *d }
            },
        }
    }

    /// Takes the outcome of reading a background image file: the decoded
    /// image, or `None` where it could not be read, in which case the
    /// missing texture stands in. A decoded image enters the image cache
    /// unless caching is disabled; the missing texture never does. Returns
    /// the background and whether it is the missing texture.
    pub fn background_loaded(&mut self, path_hash: u64, disable_caching: bool, loaded: Option<DynamicImage>, missing: &DynamicImage) -> (r: (DynamicImage, bool))
        requires
            old(self).wf(),
            loaded matches Some(img) ==> key_image(img, old(self).image_size),
            key_image(*missing, old(self).image_size),
        ensures
            final(self).wf(),
            key_image(r.0, old(self).image_size),
            final(self).render_cache == old(self).render_cache,
            final(self).image_size == old(self).image_size,
            match loaded {
                Some(img) => {
                    &&& r == (img, false)
                    &&& final(self).image_cache@ == if disable_caching {
                        old(self).image_cache@
                    } else {
                        old(self).image_cache@.insert(path_hash, img)
                    }
                },
                None => r == (*missing, true) && final(self).image_cache@ == old(self).image_cache@,
            },
    {
        match loaded {
            Some(img) => {
                if !disable_caching {
                    self.image_cache.insert(path_hash, img.clone());
                }
                (img, false)
            },
            None => (missing.clone(), true),
        }
    }

    /// Finishes a key once its texts are drawn: the image enters the render
    /// cache where the component allows caching and no stand-in image was
    /// used, and the key is set to it.
    pub fn finish_key(&mut self, key: u8, hash: u64, to_cache: bool, substituted: bool, image: DynamicImage) -> (r: StreamDeckCommand)
        requires
            old(self).wf(),
            key_image(image, old(self).image_size),
        ensures
            final(self).wf(),
            final(self).image_cache == old(self).image_cache,
            final(self).image_size == old(self).image_size,
            final(self).render_cache@ == if to_cache && !substituted {
                old(self).render_cache@.insert(hash, image)
            } else {
                old(self).render_cache@
            },
            r == StreamDeckCommand::SetButtonImage(key, image),
    {
        if to_cache && !substituted {
            self.render_cache.insert(hash, image.clone());
        }
        StreamDeckCommand::SetButtonImage(key, image)
    }
}

/// A background as the renderer reads it.
pub enum BackgroundView {
    Solid(Color),
    HorizontalGradient(Color, Color),
    VerticalGradient(Color, Color),
    Image(Seq<char>, bool),
}

/// A text as the renderer reads it.
pub struct TextView {
    pub text: Seq<char>,
    pub font: Seq<char>,
    pub scale: (u32, u32),
    pub alignment: TextAlignment,
    pub padding: u32,
    pub offset: (u32, u32),
    pub color: Color,
    pub shadow: Option<ButtonTextShadow>,
}

/// Everything the render of a key reads from its renderer component.
pub struct RenderInput {
    pub background: BackgroundView,
    pub text: Seq<TextView>,
    pub to_cache: bool,
    pub renderer: Seq<char>,
}

/// The view of a background.
pub open spec fn background_view(b: ButtonBackground) -> BackgroundView {
    match b {
        ButtonBackground::Solid(c) => BackgroundView::Solid(c),
        ButtonBackground::HorizontalGradient(a, c) => BackgroundView::HorizontalGradient(a, c),
        ButtonBackground::VerticalGradient(a, c) => BackgroundView::VerticalGradient(a, c),
        ButtonBackground::Image(p, d) => BackgroundView::Image(p@, d),
    }
}

/// The view of a text.
pub open spec fn text_view(t: ButtonText) -> TextView {
    TextView {
        text: t.text@,
        font: t.font@,
        scale: t.scale,
        alignment: t.alignment,
        padding: t.padding,
        offset: t.offset,
        color: t.color,
        shadow: t.shadow,
    }
}

/// The view of a list of texts.
pub open spec fn texts_view(s: Seq<ButtonText>) -> Seq<TextView> {
    s.map_values(|t: ButtonText| text_view(t))
}

/// What rendering a component reads.
pub open spec fn render_input(c: &RendererComponent) -> RenderInput {
    RenderInput {
        background: background_view(c.background),
        text: texts_view(c.text@),
        to_cache: c.to_cache,
        renderer: c.renderer@,
    }
}

proof fn lemma_encode_injective(a: Seq<char>, b: Seq<char>)
    requires
        encode_utf8(a) == encode_utf8(b),
    ensures
        a == b,
{
    vstd::utf8::encode_utf8_decode_utf8(a);
    vstd::utf8::encode_utf8_decode_utf8(b);
}

proof fn lemma_u32_bytes_injective(x: u32, y: u32)
    requires
        u32_bytes(x) == u32_bytes(y),
    ensures
        x == y,
{
    assert(u32_bytes(x)[0] == u32_bytes(y)[0]);
    assert(u32_bytes(x)[1] == u32_bytes(y)[1]);
    assert(u32_bytes(x)[2] == u32_bytes(y)[2]);
    assert(u32_bytes(x)[3] == u32_bytes(y)[3]);
    assert(x == y) by (bit_vector)
        requires
            (x >> 24u32) as u8 == (y >> 24u32) as u8,
            (x >> 16u32) as u8 == (y >> 16u32) as u8,
            (x >> 8u32) as u8 == (y >> 8u32) as u8,
            x as u8 == y as u8;
}

proof fn lemma_i32_cast(x: i32, y: i32)
    requires
        x as u32 == y as u32,
    ensures
        x == y,
{
    assert(x == y) by (bit_vector)
        requires
            x as u32 == y as u32;
}

proof fn lemma_pair_injective(a: (u32, u32), b: (u32, u32))
    requires
        u32_bytes(a.0) + u32_bytes(a.1) == u32_bytes(b.0) + u32_bytes(b.1),
    ensures
        a == b,
{
    lemma_split(u32_bytes(a.0), u32_bytes(a.1), u32_bytes(b.0), u32_bytes(b.1));
    lemma_u32_bytes_injective(a.0, b.0);
    lemma_u32_bytes_injective(a.1, b.1);
}

proof fn lemma_color_injective(a: Color, b: Color)
    requires
        color_bytes(a) == color_bytes(b),
    ensures
        a == b,
{
    assert(color_bytes(a)[0] == color_bytes(b)[0]);
    assert(color_bytes(a)[1] == color_bytes(b)[1]);
    assert(color_bytes(a)[2] == color_bytes(b)[2]);
    assert(color_bytes(a)[3] == color_bytes(b)[3]);
}

/// Equal concatenations whose first parts have equal lengths have equal parts.
proof fn lemma_split<A>(a1: Seq<A>, b1: Seq<A>, a2: Seq<A>, b2: Seq<A>)
    requires
        a1 + b1 == a2 + b2,
        a1.len() == a2.len(),
    ensures
        a1 == a2,
        b1 == b2,
{
    assert(a1 =~= (a1 + b1).subrange(0, a1.len() as int));
    assert(a2 =~= (a2 + b2).subrange(0, a2.len() as int));
    assert(b1 =~= (a1 + b1).subrange(a1.len() as int, (a1 + b1).len() as int));
    assert(b2 =~= (a2 + b2).subrange(a2.len() as int, (a2 + b2).len() as int));
}

/// Two texts whose hash inputs are equal read the same in every field the
/// renderer reads, scale and offset included.
pub proof fn lemma_text_injective(a: ButtonText, b: ButtonText)
    requires
        text_writes(a) == text_writes(b),
    ensures
        text_view(a) == text_view(b),
{
    let wa = text_writes(a);
    let wb = text_writes(b);
    assert(wa[0] == wb[0]);
    assert(wa[1] == wb[1]);
    assert(wa[2] == wb[2]);
    assert(wa[3] == wb[3]);
    assert(wa[4] == wb[4]);
    assert(wa[5] == wb[5]);
    assert(wa[6] == wb[6]);
    assert(wa[7] == wb[7]);
    lemma_encode_injective(a.text@, b.text@);
    lemma_encode_injective(a.font@, b.font@);
    lemma_pair_injective(a.scale, b.scale);
    lemma_u32_bytes_injective(a.padding, b.padding);
    lemma_pair_injective(a.offset, b.offset);
    lemma_color_injective(a.color, b.color);
    assert(seq![alignment_byte(a.alignment)][0] == seq![alignment_byte(b.alignment)][0]);
    assert(a.alignment == b.alignment);
    match (a.shadow, b.shadow) {
        (Some(sa), Some(sb)) => {
            assert(wa[8] == wb[8]);
            assert(wa[9] == wb[9]);
            lemma_color_injective(sa.color, sb.color);
            lemma_pair_injective((sa.offset.0 as u32, sa.offset.1 as u32), (sb.offset.0 as u32, sb.offset.1 as u32));
            lemma_i32_cast(sa.offset.0, sb.offset.0);
            lemma_i32_cast(sa.offset.1, sb.offset.1);
        },
        (None, None) => {},
        (Some(_), None) => {
            assert(wa.len() != wb.len());
        },
        (None, Some(_)) => {
            assert(wa.len() != wb.len());
        },
    }
}

proof fn lemma_texts_injective(a: Seq<ButtonText>, b: Seq<ButtonText>)
    requires
        texts_writes(a) == texts_writes(b),
        a.len() == b.len(),
    ensures
        texts_view(a) == texts_view(b),
    decreases a.len(),
{
    if a.len() > 0 {
        let la = text_writes(a.last());
        let lb = text_writes(b.last());
        let pa = texts_writes(a.drop_last());
        let pb = texts_writes(b.drop_last());
        let w = texts_writes(a);
        // The last write of a text tells its length: a lone tag byte without a
        // shadow, a color after a shadow.
        assert(w.last() == la.last());
        assert(texts_writes(b).last() == lb.last());
        assert(la.len() == lb.len()) by {
            if a.last().shadow is Some && b.last().shadow is None {
                assert(la.last().len() == 4);
                assert(lb.last().len() == 1);
            }
            if a.last().shadow is None && b.last().shadow is Some {
                assert(la.last().len() == 1);
                assert(lb.last().len() == 4);
            }
        }
        lemma_split(pa, la, pb, lb);
        lemma_text_injective(a.last(), b.last());
        lemma_texts_injective(a.drop_last(), b.drop_last());
        assert(texts_view(a) =~= texts_view(b)) by {
            assert forall|i: int| 0 <= i < a.len() implies
                #[trigger] texts_view(a)[i] == texts_view(b)[i] by {
                if i < a.len() - 1 {
                    assert(texts_view(a.drop_last())[i] == texts_view(b.drop_last())[i]);
                }
            }
        }
    }
}

proof fn lemma_background_injective(a: ButtonBackground, b: ButtonBackground)
    requires
        background_writes(a) == background_writes(b),
    ensures
        background_view(a) == background_view(b),
{
    let wa = background_writes(a);
    let wb = background_writes(b);
    assert(wa[0] == wb[0]);
    assert(wa[0][0] == wb[0][0]);
    assert(wa[1] == wb[1]);
    assert(wa[0][0] == background_tag(a));
    assert(wb[0][0] == background_tag(b));
    match (a, b) {
        (ButtonBackground::Solid(x), ButtonBackground::Solid(y)) => {
            assert(wa[1] == color_bytes(x));
            assert(wb[1] == color_bytes(y));
            lemma_color_injective(x, y);
        },
        (ButtonBackground::HorizontalGradient(x1, x2), ButtonBackground::HorizontalGradient(y1, y2)) => {
            assert(wa[2] == wb[2]);
            assert(wa[1] == color_bytes(x1) && wb[1] == color_bytes(y1));
            assert(wa[2] == color_bytes(x2) && wb[2] == color_bytes(y2));
            lemma_color_injective(x1, y1);
            lemma_color_injective(x2, y2);
        },
        (ButtonBackground::VerticalGradient(x1, x2), ButtonBackground::VerticalGradient(y1, y2)) => {
            assert(wa[2] == wb[2]);
            assert(wa[1] == color_bytes(x1) && wb[1] == color_bytes(y1));
            assert(wa[2] == color_bytes(x2) && wb[2] == color_bytes(y2));
            lemma_color_injective(x1, y1);
            lemma_color_injective(x2, y2);
        },
        (ButtonBackground::Image(p, d), ButtonBackground::Image(q, e)) => {
            assert(wa[2] == wb[2]);
            assert(wa[2][0] == wb[2][0]);
            assert(wa[1] == encode_utf8(p@) && wb[1] == encode_utf8(q@));
            lemma_encode_injective(p@, q@);
            assert(wa[2] == seq![if d { 1u8 } else { 0u8 }]);
            assert(wb[2] == seq![if e { 1u8 } else { 0u8 }]);
            assert(wa[2][0] == (if d { 1u8 } else { 0u8 }));
            assert(wb[2][0] == (if e { 1u8 } else { 0u8 }));
            assert(d == e);
        },
        _ => {
            assert(background_tag(a) != background_tag(b));
        },
    }
}

/// The tag byte that starts the hash writes of a background.
pub open spec fn background_tag(b: ButtonBackground) -> u8 {
    match b {
        ButtonBackground::Solid(_) => 0,
        ButtonBackground::HorizontalGradient(..) => 1,
        ButtonBackground::VerticalGradient(..) => 2,
        ButtonBackground::Image(..) => 3,
    }
}

/// Render cache soundness: two components with the same hash input (so,
/// short of a collision of the 64-bit hash, any two with the same hash) are
/// rendered from the same input, so the image cached under one is the image
/// of the other. Holds for components with fewer than 2^32 texts.
pub proof fn lemma_render_cache_sound(r1: &RendererComponent, r2: &RendererComponent)
    requires
        renderer_writes(r1) == renderer_writes(r2),
        r1.text@.len() < 0x1_0000_0000,
        r2.text@.len() < 0x1_0000_0000,
    ensures
        renderer_hash(r1) == renderer_hash(r2),
        render_input(r1) == render_input(r2),
{
    let w1 = renderer_writes(r1);
    let w2 = renderer_writes(r2);
    let b1 = background_writes(r1.background);
    let b2 = background_writes(r2.background);
    let t1 = texts_writes(r1.text@);
    let t2 = texts_writes(r2.text@);
    let tail1 = seq![seq![if r1.to_cache { 1u8 } else { 0u8 }], encode_utf8(r1.renderer@)];
    let tail2 = seq![seq![if r2.to_cache { 1u8 } else { 0u8 }], encode_utf8(r2.renderer@)];
    let m1 = b1 + seq![u32_bytes(r1.text@.len() as u32)] + t1;
    let m2 = b2 + seq![u32_bytes(r2.text@.len() as u32)] + t2;
    assert(w1 == m1 + tail1);
    assert(w2 == m2 + tail2);
    assert(w1.len() == w2.len());
    lemma_split(m1, tail1, m2, tail2);
    assert(tail1[0][0] == tail2[0][0]);
    lemma_encode_injective(r1.renderer@, r2.renderer@);
    // The first write is the background's tag, which fixes its length.
    assert(m1[0] == b1[0]);
    assert(m2[0] == b2[0]);
    assert(b1[0][0] == b2[0][0]);
    assert(b1.len() == b2.len());
    let c1 = seq![u32_bytes(r1.text@.len() as u32)] + t1;
    let c2 = seq![u32_bytes(r2.text@.len() as u32)] + t2;
    assert(m1 == b1 + c1);
    assert(m2 == b2 + c2);
    lemma_split(b1, c1, b2, c2);
    lemma_background_injective(r1.background, r2.background);
    lemma_split(seq![u32_bytes(r1.text@.len() as u32)], t1, seq![u32_bytes(r2.text@.len() as u32)], t2);
    assert(seq![u32_bytes(r1.text@.len() as u32)][0] == seq![u32_bytes(r2.text@.len() as u32)][0]);
    lemma_u32_bytes_injective(r1.text@.len() as u32, r2.text@.len() as u32);
    lemma_texts_injective(r1.text@, r2.text@);
}

} // verus!
