//! Batching of GPU paint commands: consecutive instances of the same kind,
//! scissor and texture are drawn by one command. Also the texture keys that
//! decide whether two instances share a texture, and the ordering of paths
//! in the scene tree.

use vstd::prelude::*;

use crate::cache::next_stamp;

verus! {

/// The scissor rectangle of a draw, in surface pixels.
#[derive(Clone, Copy, Debug, PartialEq, Eq, Structural)]
pub struct ScissorRect {
    pub x: u32,
    pub y: u32,
    pub width: u32,
    pub height: u32,
}

/// What a paint command draws.
#[derive(Clone, Copy, Debug, PartialEq, Eq, Structural)]
pub enum GpuCommandKind {
    Fill,
    Border,
    Text,
    ColorTexture,
    ProjectedTexture,
}

/// A draw of `instance_count` instances of one kind from `instance_start`,
/// under one scissor.
#[derive(Clone, Copy, Debug, PartialEq, Eq, Structural)]
pub struct GpuPaintCommand {
    pub kind: GpuCommandKind,
    pub scissor: ScissorRect,
    pub instance_start: u32,
    pub instance_count: u32,
}

/// The identity of a rasterized colour texture: what produced it and a
/// fingerprint of its content.
#[derive(Clone, Copy, Debug, PartialEq, Eq, Structural)]
pub struct ColorTextureKey {
    pub kind: u8,
    pub fingerprint: u64,
}

/// Whether a new instance continues the last command: same kind and
/// scissor, and the instance right after the command's last one.
pub open spec fn continues_last(commands: Seq<GpuPaintCommand>, kind: GpuCommandKind, scissor: ScissorRect, instance_index: u32) -> bool {
    &&& commands.len() > 0
    &&& commands.last().kind == kind
    &&& commands.last().scissor == scissor
    &&& commands.last().instance_start + commands.last().instance_count == instance_index
}

/// The commands after an instance is added: the last command grows by one
/// when `joins` holds, else a new command of one instance follows.
pub open spec fn with_instance(
    commands: Seq<GpuPaintCommand>,
    kind: GpuCommandKind,
    scissor: ScissorRect,
    instance_index: u32,
    joins: bool,
) -> Seq<GpuPaintCommand> {
    if joins {
        commands.update(
            commands.len() - 1,
            GpuPaintCommand { instance_count: (commands.last().instance_count + 1) as u32, ..commands.last() },
        )
    } else {
        commands.push(GpuPaintCommand { kind, scissor, instance_start: instance_index, instance_count: 1 })
    }
}

/// Adds an instance to the command list, joining it to the last command
/// when `same_texture` and `continues_last` hold.
fn push_command(
    commands: &mut Vec<GpuPaintCommand>,
    kind: GpuCommandKind,
    scissor: ScissorRect,
    instance_index: u32,
    same_texture: bool,
)
    requires
        continues_last(old(commands)@, kind, scissor, instance_index) && same_texture ==> old(commands)@.last().instance_count
            < u32::MAX,
    ensures
        final(commands)@ == with_instance(
            old(commands)@,
            kind,
            scissor,
            instance_index,
            continues_last(old(commands)@, kind, scissor, instance_index) && same_texture,
        ),
{
    let n = commands.len();
    if n > 0 && same_texture {
        let last = commands[n - 1];
        if last.kind == kind && last.scissor == scissor && last.instance_start as u64 + last.instance_count as u64
            == instance_index as u64 {
            commands.set(n - 1, GpuPaintCommand { instance_count: last.instance_count + 1, ..last });
            return;
        }
    }
    commands.push(GpuPaintCommand { kind, scissor, instance_start: instance_index, instance_count: 1 });
}

/// Adds a fill instance, joining the last command when it continues it.
pub fn push_fill_command(commands: &mut Vec<GpuPaintCommand>, scissor: ScissorRect, instance_index: u32)
    requires
        continues_last(old(commands)@, GpuCommandKind::Fill, scissor, instance_index) ==> old(
            commands,
        )@.last().instance_count < u32::MAX,
    ensures
        final(commands)@ == with_instance(
            old(commands)@,
            GpuCommandKind::Fill,
            scissor,
            instance_index,
            continues_last(old(commands)@, GpuCommandKind::Fill, scissor, instance_index),
        ),
{
    push_command(commands, GpuCommandKind::Fill, scissor, instance_index, true);
}

/// Adds a border instance, joining the last command when it continues it.
pub fn push_border_command(commands: &mut Vec<GpuPaintCommand>, scissor: ScissorRect, instance_index: u32)
    requires
        continues_last(old(commands)@, GpuCommandKind::Border, scissor, instance_index) ==> old(
            commands,
        )@.last().instance_count < u32::MAX,
    ensures
        final(commands)@ == with_instance(
            old(commands)@,
            GpuCommandKind::Border,
            scissor,
            instance_index,
            continues_last(old(commands)@, GpuCommandKind::Border, scissor, instance_index),
        ),
{
    push_command(commands, GpuCommandKind::Border, scissor, instance_index, true);
}

/// Whether the instance keeps the texture of the first instance of the last
/// command (that instance exists).
pub open spec fn same_texture_as_last<K>(commands: Seq<GpuPaintCommand>, keys: Seq<K>, instance_index: u32) -> bool {
    commands.len() > 0 && commands.last().instance_start < keys.len() && keys[commands.last().instance_start as int]
        == keys[instance_index as int]
}

/// Adds a colour texture instance (`keys` holds the texture of each such
/// instance), joining the last command when it continues it with the same
/// texture.
pub fn push_color_texture_command(
    commands: &mut Vec<GpuPaintCommand>,
    keys: &Vec<ColorTextureKey>,
    scissor: ScissorRect,
    instance_index: u32,
)
    requires
        instance_index < keys@.len(),
        continues_last(old(commands)@, GpuCommandKind::ColorTexture, scissor, instance_index)
            && same_texture_as_last(old(commands)@, keys@, instance_index) ==> old(commands)@.last().instance_count
            < u32::MAX,
    ensures
        final(commands)@ == with_instance(
            old(commands)@,
            GpuCommandKind::ColorTexture,
            scissor,
            instance_index,
            continues_last(old(commands)@, GpuCommandKind::ColorTexture, scissor, instance_index)
                && same_texture_as_last(old(commands)@, keys@, instance_index),
        ),
{
    let same = same_color_texture(commands, keys, instance_index);
    push_command(commands, GpuCommandKind::ColorTexture, scissor, instance_index, same);
}

/// Adds a projected texture instance (`keys` holds the texture of each such
/// instance), joining the last command when it continues it with the same
/// texture.
pub fn push_projected_texture_command(
    commands: &mut Vec<GpuPaintCommand>,
    keys: &Vec<ColorTextureKey>,
    scissor: ScissorRect,
    instance_index: u32,
)
    requires
        instance_index < keys@.len(),
        continues_last(old(commands)@, GpuCommandKind::ProjectedTexture, scissor, instance_index)
            && same_texture_as_last(old(commands)@, keys@, instance_index) ==> old(commands)@.last().instance_count
            < u32::MAX,
    ensures
        final(commands)@ == with_instance(
            old(commands)@,
            GpuCommandKind::ProjectedTexture,
            scissor,
            instance_index,
            continues_last(old(commands)@, GpuCommandKind::ProjectedTexture, scissor, instance_index)
                && same_texture_as_last(old(commands)@, keys@, instance_index),
        ),
{
    let same = same_color_texture(commands, keys, instance_index);
    push_command(commands, GpuCommandKind::ProjectedTexture, scissor, instance_index, same);
}

/// Whether the instance keeps the colour texture of the first instance of
/// the last command.
fn same_color_texture(commands: &Vec<GpuPaintCommand>, keys: &Vec<ColorTextureKey>, instance_index: u32) -> (r: bool)
    requires
        instance_index < keys@.len(),
    ensures
        r == same_texture_as_last(commands@, keys@, instance_index),
{
    let n = commands.len();
    if n == 0 {
        return false;
    }
    let start = commands[n - 1].instance_start as usize;
    if start >= keys.len() {
        return false;
    }
    let a = keys[start];
    let b = keys[instance_index as usize];
    a.kind == b.kind && a.fingerprint == b.fingerprint
}

// ---------------------------------------------------------------------------
// Text texture keys.
// ---------------------------------------------------------------------------

/// A font family in a text texture key: a named family, or a generic one
/// by number.
#[derive(Clone, Debug)]
pub enum TextFontFamilyKey {
    Named(String),
    Generic(u8),
}

/// A line height in a text texture key (the bits of its value).
#[derive(Clone, Copy, Debug, PartialEq, Eq, Structural)]
pub enum TextLineHeightKey {
    Normal,
    Px(u32),
    Scale(u32),
}

/// Everything a rasterized text texture depends on: the text, the font and
/// its style, the layout width and the sub-pixel origin (floats by their
/// bits).
#[derive(Clone, Debug)]
pub struct TextTextureKey {
    pub text: String,
    pub families: Vec<TextFontFamilyKey>,
    pub size_bits: u32,
    pub weight: u16,
    pub style: u8,
    pub line_height: TextLineHeightKey,
    pub letter_spacing_bits: u32,
    pub text_transform: u8,
    pub width_bits: u32,
    pub origin_x_bits: u32,
    pub origin_y_bits: u32,
}

/// The model of a font family key.
pub enum FamilyModel {
    Named(Seq<char>),
    Generic(u8),
}

/// The model of a font family key.
pub open spec fn family_model(f: TextFontFamilyKey) -> FamilyModel {
    match f {
        TextFontFamilyKey::Named(name) => FamilyModel::Named(name@),
        TextFontFamilyKey::Generic(g) => FamilyModel::Generic(g),
    }
}

/// Two text texture keys name the same texture: every part is equal.
pub open spec fn same_text_key(a: TextTextureKey, b: TextTextureKey) -> bool {
    &&& a.text@ == b.text@
    &&& a.families@.len() == b.families@.len()
    &&& forall|i: int| 0 <= i < a.families@.len() ==> family_model(#[trigger] a.families@[i]) == family_model(b.families@[i])
    &&& a.size_bits == b.size_bits
    &&& a.weight == b.weight
    &&& a.style == b.style
    &&& a.line_height == b.line_height
    &&& a.letter_spacing_bits == b.letter_spacing_bits
    &&& a.text_transform == b.text_transform
    &&& a.width_bits == b.width_bits
    &&& a.origin_x_bits == b.origin_x_bits
    &&& a.origin_y_bits == b.origin_y_bits
}

/// Whether two font family keys are equal.
fn same_family_key(a: &TextFontFamilyKey, b: &TextFontFamilyKey) -> (r: bool)
    ensures
        r == (family_model(*a) == family_model(*b)),
{
    match (a, b) {
        (TextFontFamilyKey::Named(x), TextFontFamilyKey::Named(y)) => {
            let r = *x == *y;
            proof {
                if r {
                    assert(x@ == y@);
                }
            }
            r
        },
        (TextFontFamilyKey::Generic(x), TextFontFamilyKey::Generic(y)) => *x == *y,
        _ => false,
    }
}

/// Whether two text texture keys name the same texture.
pub fn same_text_texture_key(a: &TextTextureKey, b: &TextTextureKey) -> (r: bool)
    ensures
        r == same_text_key(*a, *b),
{
    if !(a.size_bits == b.size_bits && a.weight == b.weight && a.style == b.style && a.line_height
        == b.line_height && a.letter_spacing_bits == b.letter_spacing_bits && a.text_transform
        == b.text_transform && a.width_bits == b.width_bits && a.origin_x_bits == b.origin_x_bits
        && a.origin_y_bits == b.origin_y_bits) {
        return false;
    }
    if a.text != b.text {
        return false;
    }
    if a.families.len() != b.families.len() {
        return false;
    }
    let mut i: usize = 0;
    while i < a.families.len()
        invariant
            a.families@.len() == b.families@.len(),
            0 <= i <= a.families@.len(),
            forall|j: int| 0 <= j < i ==> family_model(#[trigger] a.families@[j]) == family_model(b.families@[j]),
        decreases a.families@.len() - i,
    {
        if !same_family_key(&a.families[i], &b.families[i]) {
            return false;
        }
        i = i + 1;
    }
    true
}

/// Whether the instance keeps the text texture of the first instance of
/// the last command.
pub open spec fn same_text_as_last(commands: Seq<GpuPaintCommand>, keys: Seq<TextTextureKey>, instance_index: u32) -> bool {
    commands.len() > 0 && commands.last().instance_start < keys.len() && same_text_key(
        keys[commands.last().instance_start as int],
        keys[instance_index as int],
    )
}

/// Adds a text instance (`keys` holds the texture of each text instance),
/// joining the last command when it continues it with the same texture.
pub fn push_text_command(
    commands: &mut Vec<GpuPaintCommand>,
    keys: &Vec<TextTextureKey>,
    scissor: ScissorRect,
    instance_index: u32,
)
    requires
        instance_index < keys@.len(),
        continues_last(old(commands)@, GpuCommandKind::Text, scissor, instance_index) && same_text_as_last(
            old(commands)@,
            keys@,
            instance_index,
        ) ==> old(commands)@.last().instance_count < u32::MAX,
    ensures
        final(commands)@ == with_instance(
            old(commands)@,
            GpuCommandKind::Text,
            scissor,
            instance_index,
            continues_last(old(commands)@, GpuCommandKind::Text, scissor, instance_index) && same_text_as_last(
                old(commands)@,
                keys@,
                instance_index,
            ),
        ),
{
    let n = commands.len();
    let same = if n == 0 {
        false
    } else {
        let start = commands[n - 1].instance_start as usize;
        start < keys.len() && same_text_texture_key(&keys[start], &keys[instance_index as usize])
    };
    push_command(commands, GpuCommandKind::Text, scissor, instance_index, same);
}

// ---------------------------------------------------------------------------
// Paths in the scene tree.
// ---------------------------------------------------------------------------

/// Whether `path` lies inside one of the projected subtrees (one of them is
/// a prefix of it).
pub fn path_is_under_projected_subtree(path: &Vec<usize>, projected_paths: &Vec<Vec<usize>>) -> (r: bool)
    ensures
        r == exists|i: int|
            0 <= i < projected_paths@.len() && #[trigger] projected_paths@[i]@.len() <= path@.len()
                && path@.subrange(0, projected_paths@[i]@.len() as int) == projected_paths@[i]@,
{
    let mut i: usize = 0;
    while i < projected_paths.len()
        invariant
            0 <= i <= projected_paths@.len(),
            forall|j: int|
                0 <= j < i ==> !(#[trigger] projected_paths@[j]@.len() <= path@.len() && path@.subrange(
                    0,
                    projected_paths@[j]@.len() as int,
                ) == projected_paths@[j]@),
        decreases projected_paths@.len() - i,
    {
        if starts_with(path, &projected_paths[i]) {
            return true;
        }
        i = i + 1;
    }
    false
}

/// Whether `prefix` is a prefix of `path`.
fn starts_with(path: &Vec<usize>, prefix: &Vec<usize>) -> (r: bool)
    ensures
        r == (prefix@.len() <= path@.len() && path@.subrange(0, prefix@.len() as int) == prefix@),
{
    if prefix.len() > path.len() {
        return false;
    }
    let mut i: usize = 0;
    while i < prefix.len()
        invariant
            prefix@.len() <= path@.len(),
            0 <= i <= prefix@.len(),
            forall|j: int| 0 <= j < i ==> path@[j] == prefix@[j],
        decreases prefix@.len() - i,
    {
        if path[i] != prefix[i] {
            proof {
                assert(path@.subrange(0, prefix@.len() as int)[i as int] != prefix@[i as int]);
            }
            return false;
        }
        i = i + 1;
    }
    proof {
        assert(path@.subrange(0, prefix@.len() as int) =~= prefix@);
    }
    true
}

/// Hands out the next use stamp of the GPU texture caches: the current
/// count, which then advances (saturating at `u64::MAX`).
pub fn next_texture_use(next_use: &mut u64) -> (r: u64)
    ensures
        r == *old(next_use),
        *final(next_use) == next_stamp(*old(next_use)),
{
    let last_used = *next_use;
    *next_use = next_use.saturating_add(1);
    last_used
}

} // verus!
