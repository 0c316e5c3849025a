use renderer::color::{Color, pack_rgb, pack_transparent};
use renderer::dither::{generate_blue_noise_tile, to_softbuffer_rgb_blue_noise};
use renderer::glass::{
    GlassApplyResult, GlassRenderMode, GlassSync, Platform, default_native_glass_tint, glass_after_apply,
    glass_overlay_pixels, glass_render_mode, packed_windows_tint, plan_glass_sync, requires_initial_transparency,
    uses_custom_presenter, window_uses_native_glass,
};

#[test]
fn glass_capable_windows_only_start_transparent_when_required_by_native_backend() {
    assert!(window_uses_native_glass(true, Platform::Windows));
    assert!(!window_uses_native_glass(true, Platform::MacOs));
    assert!(!window_uses_native_glass(true, Platform::Other));
    assert!(!window_uses_native_glass(false, Platform::Windows));
}

#[test]
fn platforms_differ_in_transparency_and_presenting() {
    assert!(requires_initial_transparency(Platform::Windows));
    assert!(!requires_initial_transparency(Platform::MacOs));
    assert!(uses_custom_presenter(Platform::MacOs));
    assert!(!uses_custom_presenter(Platform::Windows));
    assert!(!uses_custom_presenter(Platform::Other));
}

#[test]
fn windows_tint_is_abgr() {
    assert_eq!(packed_windows_tint(Color::rgba(0x11, 0x22, 0x33, 0x44)), 0x4433_2211);
    assert_eq!(packed_windows_tint(Color::rgba(245, 250, 255, 128)), 0x80ff_faf5);
}

#[test]
fn overlay_pixels_are_opaque_dithered_or_clear() {
    let tile = generate_blue_noise_tile();
    let source = vec![pack_rgb(Color::rgb(10, 20, 30)), pack_transparent()];
    let pixels = glass_overlay_pixels(&source, 2, 1, &tile);
    assert_eq!(pixels, vec![0xff00_0000 | to_softbuffer_rgb_blue_noise(source[0], 0, 0, &tile), 0]);
}

#[test]
fn glass_sync_decisions() {
    let tint = Color::rgba(1, 2, 3, 4);
    assert_eq!(plan_glass_sync(false, true, Some(tint), true, Some(tint)), GlassSync::Clear);
    assert_eq!(plan_glass_sync(true, false, Some(tint), false, None), GlassSync::NotCapable);
    assert_eq!(plan_glass_sync(true, true, Some(tint), true, Some(tint)), GlassSync::Keep);
    assert_eq!(plan_glass_sync(true, true, Some(tint), false, Some(tint)), GlassSync::Apply(tint));
    assert_eq!(plan_glass_sync(true, true, None, false, None), GlassSync::Apply(default_native_glass_tint()));
    assert_eq!(glass_after_apply(GlassApplyResult::Applied, tint), (true, Some(tint)));
    assert_eq!(glass_after_apply(GlassApplyResult::Failed, tint), (false, None));
    assert_eq!(glass_render_mode(true), GlassRenderMode::Native);
    assert_eq!(glass_render_mode(false), GlassRenderMode::Fallback);
}
