use renderer::gpu_batch::{
    ColorTextureKey, GpuCommandKind, GpuPaintCommand, ScissorRect, TextFontFamilyKey, TextLineHeightKey,
    TextTextureKey, next_texture_use, path_is_under_projected_subtree, push_border_command, push_color_texture_command,
    push_fill_command, push_projected_texture_command, push_text_command, same_text_texture_key,
};
use std::cmp::Ordering;
use renderer::tree_order::{OrderedItem, compare_tree_entry_path, projected_sort_key};

fn scissor(x: u32) -> ScissorRect {
    ScissorRect { x, y: 0, width: 10, height: 10 }
}

fn text_key(text: &str) -> TextTextureKey {
    TextTextureKey {
        text: text.to_string(),
        families: vec![TextFontFamilyKey::Named("Inter".to_string()), TextFontFamilyKey::Generic(1)],
        size_bits: 16.0_f32.to_bits(),
        weight: 400,
        style: 0,
        line_height: TextLineHeightKey::Normal,
        letter_spacing_bits: 0,
        text_transform: 0,
        width_bits: 100.0_f32.to_bits(),
        origin_x_bits: 0,
        origin_y_bits: 0,
    }
}

#[test]
fn consecutive_fills_under_one_scissor_share_a_command() {
    let mut commands = Vec::new();
    push_fill_command(&mut commands, scissor(0), 0);
    push_fill_command(&mut commands, scissor(0), 1);
    push_fill_command(&mut commands, scissor(1), 2);
    push_border_command(&mut commands, scissor(1), 0);
    push_fill_command(&mut commands, scissor(1), 3);
    push_fill_command(&mut commands, scissor(1), 5);
    assert_eq!(
        commands,
        vec![
            GpuPaintCommand { kind: GpuCommandKind::Fill, scissor: scissor(0), instance_start: 0, instance_count: 2 },
            GpuPaintCommand { kind: GpuCommandKind::Fill, scissor: scissor(1), instance_start: 2, instance_count: 1 },
            GpuPaintCommand { kind: GpuCommandKind::Border, scissor: scissor(1), instance_start: 0, instance_count: 1 },
            GpuPaintCommand { kind: GpuCommandKind::Fill, scissor: scissor(1), instance_start: 3, instance_count: 1 },
            GpuPaintCommand { kind: GpuCommandKind::Fill, scissor: scissor(1), instance_start: 5, instance_count: 1 },
        ]
    );
}

#[test]
fn textured_commands_also_need_the_same_texture() {
    let keys = vec![
        ColorTextureKey { kind: 1, fingerprint: 7 },
        ColorTextureKey { kind: 1, fingerprint: 7 },
        ColorTextureKey { kind: 2, fingerprint: 7 },
    ];
    let mut commands = Vec::new();
    push_color_texture_command(&mut commands, &keys, scissor(0), 0);
    push_color_texture_command(&mut commands, &keys, scissor(0), 1);
    push_color_texture_command(&mut commands, &keys, scissor(0), 2);
    assert_eq!(commands.len(), 2);
    assert_eq!(commands[0].instance_count, 2);
    assert_eq!(commands[1].instance_start, 2);

    let mut projected = Vec::new();
    push_projected_texture_command(&mut projected, &keys, scissor(0), 0);
    push_projected_texture_command(&mut projected, &keys, scissor(0), 1);
    assert_eq!(projected.len(), 1);
    assert_eq!(projected[0].kind, GpuCommandKind::ProjectedTexture);
}

#[test]
fn text_commands_batch_by_texture_key() {
    let keys = vec![text_key("Hi"), text_key("Hi"), text_key("Ho")];
    assert!(same_text_texture_key(&keys[0], &keys[1]));
    assert!(!same_text_texture_key(&keys[0], &keys[2]));
    let mut commands = Vec::new();
    push_text_command(&mut commands, &keys, scissor(0), 0);
    push_text_command(&mut commands, &keys, scissor(0), 1);
    push_text_command(&mut commands, &keys, scissor(0), 2);
    assert_eq!(commands.len(), 2);
    assert_eq!(commands[0].instance_count, 2);
}

#[test]
fn projected_subtrees_are_path_prefixes() {
    let projected = vec![vec![0, 2], vec![1]];
    assert!(path_is_under_projected_subtree(&vec![0, 2, 5], &projected));
    assert!(path_is_under_projected_subtree(&vec![1], &projected));
    assert!(!path_is_under_projected_subtree(&vec![0, 3], &projected));
    assert!(!path_is_under_projected_subtree(&vec![0], &projected));
}

#[test]
fn tree_paths_order_depth_first() {
    assert_eq!(compare_tree_entry_path(&vec![0, 1], &vec![0, 2]), Ordering::Less);
    assert_eq!(compare_tree_entry_path(&vec![0, 1], &vec![0, 1, 0]), Ordering::Less);
    assert_eq!(compare_tree_entry_path(&vec![1], &vec![0, 9]), Ordering::Greater);
    assert_eq!(compare_tree_entry_path(&vec![2, 3], &vec![2, 3]), Ordering::Equal);
    let items = vec![
        OrderedItem { path: vec![0], stable_sort_key: 10 },
        OrderedItem { path: vec![0, 1], stable_sort_key: 20 },
        OrderedItem { path: vec![1], stable_sort_key: 30 },
    ];
    assert_eq!(projected_sort_key(&items, &vec![0, 1]), 20);
    assert_eq!(projected_sort_key(&items, &vec![0, 0, 4]), 20);
    assert_eq!(projected_sort_key(&items, &vec![2]), u64::MAX);
}

#[test]
fn texture_use_stamps_advance_and_saturate() {
    let mut next = 5u64;
    assert_eq!(next_texture_use(&mut next), 5);
    assert_eq!(next, 6);
    let mut last = u64::MAX;
    assert_eq!(next_texture_use(&mut last), u64::MAX);
    assert_eq!(last, u64::MAX);
}
