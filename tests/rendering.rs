use image::GenericImageView;
use streamduck_core::rendering::{
    missing_tile_color, draw_missing_texture, hash_renderer, make_true, preview_step, ButtonBackground, ButtonText,
    ButtonTextShadow, KeyStep, PreviewStep, RendererComponent, RendererHandle, RendererState, StreamDeckCommand,
    TextAlignment, WorkerAction,
};

fn solid(c: (u8, u8, u8, u8)) -> RendererComponent {
    RendererComponent { background: ButtonBackground::Solid(c), ..Default::default() }
}

fn text(t: &str) -> ButtonText {
    ButtonText {
        text: t.to_string(),
        font: "default".to_string(),
        scale: (15.0f32.to_bits(), 15.0f32.to_bits()),
        alignment: TextAlignment::Center,
        padding: 0,
        offset: (0.0f32.to_bits(), 0.0f32.to_bits()),
        color: (255, 255, 255, 255),
        shadow: Some(ButtonTextShadow { offset: (1, 1), color: (0, 0, 0, 255) }),
    }
}

#[test]
fn defaults() {
    assert!(make_true());
    let r = RendererComponent::default();
    assert!(matches!(r.background, ButtonBackground::Solid((255, 255, 255, 255))));
    assert!(r.to_cache);
    assert!(r.text.is_empty());
    assert!(matches!(ButtonBackground::default(), ButtonBackground::Solid((0, 0, 0, 0))));
}

#[test]
fn renderer_hash_follows_content() {
    let a = solid((1, 2, 3, 255));
    let b = solid((1, 2, 3, 255));
    let c = solid((1, 2, 4, 255));
    assert_eq!(hash_renderer(&a), hash_renderer(&b));
    assert_ne!(hash_renderer(&a), hash_renderer(&c));
    let mut d = solid((1, 2, 3, 255));
    d.text.push(text("hi"));
    assert_ne!(hash_renderer(&a), hash_renderer(&d));
    let mut e = solid((1, 2, 3, 255));
    e.text.push(text("hi"));
    e.text[0].scale = (20.0f32.to_bits(), 20.0f32.to_bits());
    assert_ne!(hash_renderer(&d), hash_renderer(&e));
}

#[test]
fn missing_tile_pattern() {
    assert_eq!(missing_tile_color(0, 0), (255, 0, 255, 255));
    assert_eq!(missing_tile_color(8, 0), (0, 0, 0, 255));
    assert_eq!(missing_tile_color(8, 8), (255, 0, 255, 255));
    assert_eq!(missing_tile_color(16, 3), (255, 0, 255, 255));
    let img = draw_missing_texture((20, 10));
    assert_eq!(img.dimensions(), (20, 10));
    assert_eq!(img.get_pixel(9, 1).0, [0, 0, 0, 255]);
    assert_eq!(img.get_pixel(1, 1).0, [255, 0, 255, 255]);
}

#[test]
fn key_without_renderer_is_cleared() {
    let state = RendererState::new((72, 72));
    assert!(matches!(state.begin_key(None), KeyStep::Clear));
}

#[test]
fn solid_background_is_composed_then_cached() {
    let mut state = RendererState::new((4, 4));
    let r = solid((9, 8, 7, 255));
    let h = hash_renderer(&r);
    let bg = match state.begin_key(Some(&r)) {
        KeyStep::Compose { hash, background } => {
            assert_eq!(hash, h);
            background
        }
        _ => panic!("expected Compose"),
    };
    assert_eq!(bg.get_pixel(0, 0).0, [9, 8, 7, 255]);
    let cmd = state.finish_key(3, h, r.to_cache, false, bg);
    assert!(matches!(cmd, StreamDeckCommand::SetButtonImage(3, _)));
    assert!(state.render_cache.contains_key(&h));
    assert!(matches!(state.begin_key(Some(&r)), KeyStep::Cached(_)));
    let mut no_cache = solid((9, 8, 7, 255));
    no_cache.to_cache = false;
    assert!(matches!(state.begin_key(Some(&no_cache)), KeyStep::Compose { .. }));
}

#[test]
fn missing_texture_is_never_cached() {
    let mut state = RendererState::new((8, 8));
    let r = RendererComponent {
        background: ButtonBackground::Image("/does/not/exist".to_string(), false),
        ..Default::default()
    };
    let h = hash_renderer(&r);
    let missing = draw_missing_texture((8, 8));
    let (path_hash, disable) = match state.begin_key(Some(&r)) {
        KeyStep::Load { hash, path, path_hash, disable_caching } => {
            assert_eq!(hash, h);
            assert_eq!(path, "/does/not/exist");
            (path_hash, disable_caching)
        }
        _ => panic!("expected Load"),
    };
    let (img, substituted) = state.background_loaded(path_hash, disable, None, &missing);
    assert!(substituted);
    state.finish_key(0, h, r.to_cache, substituted, img);
    assert!(state.image_cache.is_empty());
    assert!(state.render_cache.is_empty());

    // The file now exists: the next pass loads it and both caches fill.
    let ph = match state.begin_key(Some(&r)) {
        KeyStep::Load { path_hash, .. } => path_hash,
        _ => panic!("expected Load"),
    };
    let decoded = image::DynamicImage::new_rgba8(8, 8);
    let (img, substituted) = state.background_loaded(ph, false, Some(decoded), &missing);
    assert!(!substituted);
    state.finish_key(0, h, r.to_cache, substituted, img);
    assert!(state.image_cache.contains_key(&ph));
    assert!(state.render_cache.contains_key(&h));
}

#[test]
fn image_cache_bypass() {
    let mut state = RendererState::new((8, 8));
    let missing = draw_missing_texture((8, 8));
    let (_, substituted) = state.background_loaded(42, true, Some(image::DynamicImage::new_rgba8(8, 8)), &missing);
    assert!(!substituted);
    assert!(state.image_cache.is_empty());
    let r = RendererComponent {
        background: ButtonBackground::Image("/some/file.png".to_string(), false),
        to_cache: false,
        ..Default::default()
    };
    let ph = match state.begin_key(Some(&r)) {
        KeyStep::Load { path_hash, .. } => path_hash,
        _ => panic!("expected Load"),
    };
    state.background_loaded(ph, false, Some(image::DynamicImage::new_rgba8(8, 8)), &missing);
    assert!(matches!(state.begin_key(Some(&r)), KeyStep::Compose { .. }));
}

#[test]
fn redraw_requests_coalesce() {
    let mut h = RendererHandle::new();
    assert!(matches!(h.next_action(false), WorkerAction::Redraw));
    assert!(matches!(h.next_action(false), WorkerAction::Wait));
    h.redraw();
    h.redraw();
    h.redraw();
    assert!(matches!(h.next_action(false), WorkerAction::Redraw));
    assert!(matches!(h.next_action(false), WorkerAction::Wait));
    h.redraw();
    assert!(matches!(h.next_action(true), WorkerAction::Exit));
}

#[test]
fn one_pixel_gradients_are_their_start_color() {
    let state = RendererState::new((1, 4));
    let r = RendererComponent {
        background: ButtonBackground::HorizontalGradient((1, 2, 3, 255), (9, 9, 9, 255)),
        ..Default::default()
    };
    match state.begin_key(Some(&r)) {
        KeyStep::Compose { background, .. } => {
            assert_eq!(background.dimensions(), (1, 4));
            assert_eq!(background.get_pixel(0, 3).0, [1, 2, 3, 255]);
        }
        _ => panic!("expected Compose"),
    }
    let state = RendererState::new((4, 1));
    let r = RendererComponent {
        background: ButtonBackground::VerticalGradient((4, 5, 6, 255), (9, 9, 9, 255)),
        ..Default::default()
    };
    match state.begin_key(Some(&r)) {
        KeyStep::Compose { background, .. } => assert_eq!(background.get_pixel(3, 0).0, [4, 5, 6, 255]),
        _ => panic!("expected Compose"),
    }
    let state = RendererState::new((4, 4));
    let r = RendererComponent {
        background: ButtonBackground::HorizontalGradient((0, 0, 0, 255), (255, 255, 255, 255)),
        ..Default::default()
    };
    match state.begin_key(Some(&r)) {
        KeyStep::Compose { background, .. } => {
            assert_eq!(background.get_pixel(0, 0).0, [0, 0, 0, 255]);
            assert_eq!(background.get_pixel(3, 0).0, [255, 255, 255, 255]);
        }
        _ => panic!("expected Compose"),
    }
}

#[test]
fn custom_renderer_step() {
    let mut state = RendererState::new((4, 4));
    let r = RendererComponent { renderer: "clock".to_string(), ..Default::default() };
    let h = hash_renderer(&r);
    match state.begin_key(Some(&r)) {
        KeyStep::Custom { hash, renderer } => {
            assert_eq!(hash, h);
            assert_eq!(renderer, "clock");
        }
        _ => panic!("expected Custom"),
    }
    // A placeholder is a stand-in: it is not cached.
    state.finish_key(0, h, true, true, image::DynamicImage::new_rgba8(4, 4));
    assert!(state.render_cache.is_empty());
    assert!(matches!(state.begin_key(Some(&r)), KeyStep::Custom { .. }));
}

#[test]
fn preview_steps() {
    assert!(matches!(preview_step(None), PreviewStep::Blank));
    let r = RendererComponent::default();
    assert!(matches!(preview_step(Some(&r)), PreviewStep::Draw));
    let c = RendererComponent { renderer: "clock".to_string(), ..Default::default() };
    match preview_step(Some(&c)) {
        PreviewStep::Custom(n) => assert_eq!(n, "clock"),
        _ => panic!("expected Custom"),
    }
}

#[test]
fn text_hash_covers_scale_and_offset() {
    let a = text("hi");
    let mut b = text("hi");
    b.scale = (16.0f32.to_bits(), 15.0f32.to_bits());
    let mut c = text("hi");
    c.offset = (1.0f32.to_bits(), 0.0f32.to_bits());
    assert_eq!(a.text_hash(), text("hi").text_hash());
    assert_ne!(a.text_hash(), b.text_hash());
    assert_ne!(a.text_hash(), c.text_hash());
}

#[test]
fn key_images_have_the_key_size() {
    let state = RendererState::new((6, 5));
    let r = RendererComponent {
        background: ButtonBackground::VerticalGradient((0, 0, 0, 255), (255, 255, 255, 255)),
        ..Default::default()
    };
    match state.begin_key(Some(&r)) {
        KeyStep::Compose { background, .. } => {
            assert_eq!(background.dimensions(), (6, 5));
            assert!(matches!(background, image::DynamicImage::ImageRgba8(_)));
        }
        _ => panic!("expected Compose"),
    }
    let missing = draw_missing_texture((6, 5));
    assert_eq!(missing.dimensions(), (6, 5));
    assert!(matches!(missing, image::DynamicImage::ImageRgba8(_)));
}
