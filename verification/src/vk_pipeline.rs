//! What the Vulkan backend settles about a graphics pipeline before it asks
//! the driver for one: which descriptions it refuses, the vertex input
//! layout, and the attachment formats. Format codes are those of the Vulkan
//! specification.

use vstd::prelude::*;

use crate::null_gpu::{is_message, GraphicsPipelineDesc, RhiError};
use crate::rhi::{Format, PipelineTargets};
use crate::surface::{spec_vk_format, vk_format};

verus! {

pub const VK_FORMAT_UNDEFINED: i32 = 0;
pub const VK_FORMAT_R32G32_SFLOAT: i32 = 103;
pub const VK_FORMAT_R32G32B32_SFLOAT: i32 = 106;
pub const VK_FORMAT_R32G32B32A32_SFLOAT: i32 = 109;

/// A vertex buffer binding: per vertex (binding 0) or per instance
/// (binding 1).
#[derive(Clone, Copy, Debug, PartialEq, Eq, Structural)]
pub struct VertexBinding {
    pub binding: u32,
    pub stride: u32,
    pub per_instance: bool,
}

/// One shader input read from a binding.
#[derive(Clone, Copy, Debug, PartialEq, Eq, Structural)]
pub struct VertexAttribute {
    pub location: u32,
    pub binding: u32,
    pub format: i32,
    pub offset: u32,
}

/// The descriptions no pipeline is made from: no vertex shader, a depth-only
/// pipeline with colour targets, or a pipeline with colour and no fragment
/// shader. They are refused in that order.
pub fn check_pipeline_desc(desc: &GraphicsPipelineDesc<'_>) -> (r: Result<(), RhiError>)
    ensures
        match r {
            Ok(_) => desc.vs_spirv@.len() > 0 && !(desc.targets.depth_only && desc.targets.color_formats@.len()
                > 0) && (desc.targets.depth_only || desc.fs_spirv@.len() > 0),
            Err(e) => if desc.vs_spirv@.len() == 0 {
                is_message(e, "vertex SPIR-V is empty"@)
            } else if desc.targets.depth_only && desc.targets.color_formats@.len() > 0 {
                is_message(e, "depth_only PSO must have empty color_formats"@)
            } else {
                !desc.targets.depth_only && desc.fs_spirv@.len() == 0 && is_message(
                    e,
                    "fragment SPIR-V is empty"@,
                )
            },
        },
{
    if desc.vs_spirv.len() == 0 {
        return Err(RhiError::msg("vertex SPIR-V is empty"));
    }
    if desc.targets.depth_only && desc.targets.color_formats.len() > 0 {
        return Err(RhiError::msg("depth_only PSO must have empty color_formats"));
    }
    if !desc.targets.depth_only && desc.fs_spirv.len() == 0 {
        return Err(RhiError::msg("fragment SPIR-V is empty"));
    }
    Ok(())
}

/// A shader entry point must not hold a NUL: the driver reads it as a C
/// string.
pub fn check_entry_points(vs_entry: &str, fs_entry: &str) -> (r: Result<(), RhiError>)
    ensures
        match r {
            Ok(_) => !vs_entry@.contains('\0') && !fs_entry@.contains('\0'),
            Err(e) => (vs_entry@.contains('\0') || fs_entry@.contains('\0')) && e is BadCString,
        },
{
    if has_nul(vs_entry) || has_nul(fs_entry) {
        return Err(RhiError::BadCString);
    }
    Ok(())
}

fn has_nul(s: &str) -> (r: bool)
    ensures
        r == s@.contains('\0'),
{
    let n = s.unicode_len();
    let mut i: usize = 0;
    while i < n
        invariant
            i <= n,
            n == s@.len(),
            forall|j: int| 0 <= j < i ==> s@[j] != '\0',
        decreases n - i,
    {
        if s.get_char(i) == '\0' {
            assert(s@[i as int] == '\0');
            return true;
        }
        i = i + 1;
    }
    false
}

/// The bindings: per vertex when there is a vertex stride, then per
/// instance when there is an instance stride.
pub open spec fn spec_vertex_bindings(vertex_stride: u32, instance_stride: u32) -> Seq<VertexBinding> {
    (if vertex_stride > 0 {
        seq![VertexBinding { binding: 0, stride: vertex_stride, per_instance: false }]
    } else {
        Seq::empty()
    }) + (if instance_stride > 0 {
        seq![VertexBinding { binding: 1, stride: instance_stride, per_instance: true }]
    } else {
        Seq::empty()
    })
}

/// Instance attribute `i`: a four-float row at location `2 + i`.
pub open spec fn instance_attribute(i: int) -> VertexAttribute {
    VertexAttribute {
        location: (2 + i) as u32,
        binding: 1,
        format: VK_FORMAT_R32G32B32A32_SFLOAT,
        offset: (16 * i) as u32,
    }
}

/// The attributes: position and normal from each vertex, and its UV when
/// the vertex is large enough to hold one and no instance data takes that
/// location; then one four-float row per 16 bytes of instance data.
pub open spec fn spec_vertex_attributes(vertex_stride: u32, instance_stride: u32) -> Seq<VertexAttribute> {
    (if vertex_stride > 0 {
        seq![
            VertexAttribute { location: 0, binding: 0, format: VK_FORMAT_R32G32B32_SFLOAT, offset: 0 },
            VertexAttribute { location: 1, binding: 0, format: VK_FORMAT_R32G32B32_SFLOAT, offset: 12 },
        ] + if instance_stride == 0 && vertex_stride >= 32 {
            seq![VertexAttribute { location: 2, binding: 0, format: VK_FORMAT_R32G32_SFLOAT, offset: 24 }]
        } else {
            Seq::empty()
        }
    } else {
        Seq::empty()
    }) + (if instance_stride > 0 {
        Seq::new((instance_stride / 16) as nat, |i: int| instance_attribute(i))
    } else {
        Seq::empty()
    })
}

/// The vertex input of a pipeline whose vertices are `vertex_stride` bytes
/// apart and whose instances `instance_stride` bytes apart.
pub fn vertex_layout(vertex_stride: u32, instance_stride: u32) -> (r: (Vec<VertexBinding>, Vec<VertexAttribute>))
    ensures
        r.0@ == spec_vertex_bindings(vertex_stride, instance_stride),
        r.1@ == spec_vertex_attributes(vertex_stride, instance_stride),
{
    let mut bindings: Vec<VertexBinding> = Vec::new();
    let mut attrs: Vec<VertexAttribute> = Vec::new();
    if vertex_stride > 0 {
        bindings.push(VertexBinding { binding: 0, stride: vertex_stride, per_instance: false });
        attrs.push(VertexAttribute { location: 0, binding: 0, format: VK_FORMAT_R32G32B32_SFLOAT, offset: 0 });
        attrs.push(VertexAttribute { location: 1, binding: 0, format: VK_FORMAT_R32G32B32_SFLOAT, offset: 12 });
        if instance_stride == 0 && vertex_stride >= 32 {
            attrs.push(VertexAttribute { location: 2, binding: 0, format: VK_FORMAT_R32G32_SFLOAT, offset: 24 });
        }
    }
    let ghost vertex_part = attrs@;
    if instance_stride > 0 {
        bindings.push(VertexBinding { binding: 1, stride: instance_stride, per_instance: true });
        let n = instance_stride / 16;
        let mut i: u32 = 0;
        while i < n
            invariant
                i <= n,
                n == instance_stride / 16,
                attrs@ == vertex_part + Seq::new(i as nat, |j: int| instance_attribute(j)),
            decreases n - i,
        {
            attrs.push(
                VertexAttribute { location: 2 + i, binding: 1, format: VK_FORMAT_R32G32B32A32_SFLOAT, offset: i * 16 },
            );
            proof {
                assert(attrs@ =~= vertex_part + Seq::new((i + 1) as nat, |j: int| instance_attribute(j)));
            }
            i = i + 1;
        }
    }
    proof {
        assert(bindings@ =~= spec_vertex_bindings(vertex_stride, instance_stride));
        assert(attrs@ =~= spec_vertex_attributes(vertex_stride, instance_stride));
    }
    (bindings, attrs)
}

/// No two attributes share a location, and every instance row lies inside
/// the instance stride.
pub proof fn vertex_attributes_never_collide(vertex_stride: u32, instance_stride: u32)
    ensures
        ({
            let a = spec_vertex_attributes(vertex_stride, instance_stride);
            &&& forall|i: int, j: int|
                0 <= i < j < a.len() ==> (#[trigger] a[i]).location != (#[trigger] a[j]).location
            &&& forall|i: int|
                0 <= i < a.len() && (#[trigger] a[i]).binding == 1 ==> a[i].offset + 16 <= instance_stride
        }),
{
    let a = spec_vertex_attributes(vertex_stride, instance_stride);
    let v: Seq<VertexAttribute> = if vertex_stride > 0 {
        seq![
            VertexAttribute { location: 0, binding: 0, format: VK_FORMAT_R32G32B32_SFLOAT, offset: 0 },
            VertexAttribute { location: 1, binding: 0, format: VK_FORMAT_R32G32B32_SFLOAT, offset: 12 },
        ] + if instance_stride == 0 && vertex_stride >= 32 {
            seq![VertexAttribute { location: 2, binding: 0, format: VK_FORMAT_R32G32_SFLOAT, offset: 24 }]
        } else {
            Seq::empty()
        }
    } else {
        Seq::empty()
    };
    let w: Seq<VertexAttribute> = if instance_stride > 0 {
        Seq::new((instance_stride / 16) as nat, |i: int| instance_attribute(i))
    } else {
        Seq::empty()
    };
    assert(a == v + w);
    assert forall|i: int| 0 <= i < v.len() implies (#[trigger] v[i]).location == i && v[i].binding == 0 by {
    }
    assert forall|i: int| 0 <= i < w.len() implies #[trigger] w[i] == instance_attribute(i) by {
    }
    assert(instance_stride > 0 ==> v.len() <= 2);
    assert forall|i: int, j: int| 0 <= i < j < a.len() implies (#[trigger] a[i]).location != (
    #[trigger] a[j]).location by {
        if j < v.len() {
            assert(a[i] == v[i] && a[j] == v[j]);
        } else if i < v.len() {
            assert(a[i] == v[i] && a[j] == w[j - v.len()]);
            assert(instance_stride / 16 <= u32::MAX / 16);
        } else {
            assert(a[i] == w[i - v.len()] && a[j] == w[j - v.len()]);
            assert(instance_stride / 16 <= u32::MAX / 16);
        }
    }
    assert forall|i: int| 0 <= i < a.len() && (#[trigger] a[i]).binding == 1 implies a[i].offset + 16
        <= instance_stride by {
        if i >= v.len() {
            let k = i - v.len();
            assert(a[i] == w[k]);
            assert(16 * k + 16 <= instance_stride) by (nonlinear_arith)
                requires
                    0 <= k < instance_stride / 16,
            ;
        }
    }
}

/// The colour formats a pipeline renders to: none for depth only, the
/// swapchain's when none are named, else the codes of the named ones.
pub open spec fn spec_color_codes(formats: Seq<Format>, depth_only: bool, swapchain_format: i32) -> Option<
    Seq<i32>,
> {
    if depth_only {
        Some(Seq::empty())
    } else if formats.len() == 0 {
        Some(seq![swapchain_format])
    } else if forall|i: int| 0 <= i < formats.len() ==> (#[trigger] spec_vk_format(formats[i])) is Some {
        Some(formats.map_values(|f: Format| spec_vk_format(f).unwrap()))
    } else {
        None
    }
}

/// The colour and depth formats of a pipeline's attachments; the depth
/// format is `VK_FORMAT_UNDEFINED` when there is no depth target. A format
/// with no Vulkan code is refused, colour first.
pub fn attachment_formats(targets: &PipelineTargets<'_>, swapchain_format: i32) -> (r: Result<
    (Vec<i32>, i32),
    RhiError,
>)
    ensures
        match r {
            Ok((colors, depth)) => {
                &&& spec_color_codes(targets.color_formats@, targets.depth_only, swapchain_format) == Some(
                    colors@,
                )
                &&& depth == match targets.depth_format {
                    Some(f) => spec_vk_format(f).unwrap(),
                    None => VK_FORMAT_UNDEFINED,
                }
                &&& (targets.depth_format matches Some(f) ==> spec_vk_format(f) is Some)
            },
            Err(e) => is_message(e, "unknown texture format"@) && (spec_color_codes(
                targets.color_formats@,
                targets.depth_only,
                swapchain_format,
            ) is None || (targets.depth_format matches Some(f) && spec_vk_format(f) is None)),
        },
{
    let mut colors: Vec<i32> = Vec::new();
    if targets.depth_only {
    } else if targets.color_formats.len() == 0 {
        colors.push(swapchain_format);
        proof {
            assert(colors@ =~= seq![swapchain_format]);
        }
    } else {
        let n = targets.color_formats.len();
        let mut i: usize = 0;
        while i < n
            invariant
                i <= n,
                n == targets.color_formats@.len(),
                n > 0,
                !targets.depth_only,
                forall|j: int| 0 <= j < i ==> (#[trigger] spec_vk_format(targets.color_formats@[j])) is Some,
                colors@ == targets.color_formats@.take(i as int).map_values(|f: Format| spec_vk_format(f).unwrap()),
            decreases n - i,
        {
            let code = match vk_format(targets.color_formats[i]) {
                Ok(code) => code,
                Err(e) => {
                    proof {
                        let fs = targets.color_formats@;
                        assert(spec_vk_format(fs[i as int]) is None);
                        assert(!(forall|j: int| 0 <= j < fs.len() ==> (#[trigger] spec_vk_format(fs[j])) is Some));
                        assert(spec_color_codes(fs, targets.depth_only, swapchain_format) is None);
                    }
                    return Err(e);
                },
            };
            colors.push(code);
            proof {
                assert(colors@ =~= targets.color_formats@.take(i + 1).map_values(
                    |f: Format| spec_vk_format(f).unwrap(),
                ));
            }
            i = i + 1;
        }
        proof {
            assert(targets.color_formats@.take(n as int) =~= targets.color_formats@);
        }
    }
    let depth = match targets.depth_format {
        Some(f) => match vk_format(f) {
            Ok(code) => code,
            Err(e) => return Err(e),
        },
        None => VK_FORMAT_UNDEFINED,
    };
    Ok((colors, depth))
}

} // verus!
