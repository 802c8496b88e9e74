use harpia::null_gpu::{DeviceDesc, GraphicsPipelineDesc, NullGpu, RhiError};
use harpia::rhi::{
    Backend, Extent2D, Format, FrameConstants, PipelineTargets, Texture, TextureDesc, TextureDim, FRAME_CBV_CHUNKS,
};

fn desc() -> DeviceDesc {
    DeviceDesc { vsync: true, backend: Backend::Null, validation: false, app_name: "test", width: 64, height: 64 }
}

fn message(e: RhiError) -> String {
    match e {
        RhiError::Message(m) => m,
        other => panic!("not a message: {other:?}"),
    }
}

#[test]
fn null_device_draws_without_gpu() {
    let mut gpu = NullGpu::new(&desc());
    let info = gpu.begin_frame().unwrap();
    assert!(!info.skipped);
    gpu.begin_swapchain_pass().unwrap();
    let pso = gpu
        .create_graphics_pipeline(&GraphicsPipelineDesc {
            vs_spirv: &[],
            fs_spirv: &[],
            vs_entry: "VSMain",
            fs_entry: "PSMain",
            bindless: false,
            targets: PipelineTargets::default(),
        })
        .unwrap();
    gpu.set_pipeline(&pso).unwrap();
    gpu.draw(3, 1, 0, 0).unwrap();
    gpu.end_swapchain_pass().unwrap();
    gpu.end_frame().unwrap();
    assert_eq!(gpu.validation_error_count(), 0);
}

#[test]
fn null_bindless_upload_and_dispatch() {
    let mut gpu = NullGpu::new(&desc());
    let tex = gpu
        .create_texture(&TextureDesc {
            width: 4,
            height: 4,
            depth_slices: 1,
            dim: TextureDim::D2,
            mip_levels: 1,
            format: Format::Rgba8Unorm,
            sampled: true,
            storage: false,
            color_attachment: false,
            depth: false,
        })
        .unwrap();
    gpu.upload_texture_mip(tex, 0, &[0u8; 64]).unwrap();
    assert_ne!(gpu.bindless_index(tex).unwrap(), 0);
    assert_eq!(gpu.bindless_index(Texture::null()).unwrap(), 0);
    let _ = gpu.begin_frame().unwrap();
    gpu.write_frame_constants(FrameConstants { tex_a: 1, tex_b: 0, _pad: [0, 0] }).unwrap();
    gpu.bind_compute_bindless().unwrap();
    gpu.dispatch(1, 1, 1).unwrap();
    gpu.end_frame().unwrap();
}

#[test]
fn null_mrt_and_indexed_draw() {
    let mut gpu = NullGpu::new(&desc());
    let rt = gpu
        .create_texture(&TextureDesc {
            width: 64,
            height: 64,
            depth_slices: 1,
            dim: TextureDim::D2,
            mip_levels: 1,
            format: Format::Rgba8Unorm,
            sampled: true,
            storage: false,
            color_attachment: true,
            depth: false,
        })
        .unwrap();
    let depth = gpu
        .create_texture(&TextureDesc {
            width: 64,
            height: 64,
            depth_slices: 1,
            dim: TextureDim::D2,
            mip_levels: 1,
            format: Format::D32Float,
            sampled: false,
            storage: false,
            color_attachment: false,
            depth: true,
        })
        .unwrap();
    let vb = gpu.create_vertex_buffer(&[0u8; 24]).unwrap();
    let ib = gpu.create_index_buffer(&[0u8, 0, 0, 0]).unwrap();
    let _ = gpu.begin_frame().unwrap();
    gpu.write_frame_bytes(&[0u8; 16]).unwrap();
    gpu.begin_color_pass(&[rt], Some(depth)).unwrap();
    gpu.bind_vertex_buffer(vb, 0).unwrap();
    gpu.bind_index_buffer(ib).unwrap();
    gpu.set_push_constants(&[0u8; 128]).unwrap();
    gpu.draw_indexed(3, 1, 0, 0, 0).unwrap();
    gpu.end_color_pass().unwrap();
    gpu.end_frame().unwrap();
}

#[test]
fn null_depth_only_pass_and_viewport() {
    let mut gpu = NullGpu::new(&desc());
    let atlas = gpu
        .create_texture(&TextureDesc {
            width: 64,
            height: 64,
            depth_slices: 1,
            dim: TextureDim::D2,
            mip_levels: 1,
            format: Format::D32Float,
            sampled: true,
            storage: false,
            color_attachment: false,
            depth: true,
        })
        .unwrap();
    let _ = gpu.begin_frame().unwrap();
    gpu.begin_color_pass(&[], Some(atlas)).unwrap();
    gpu.set_viewport().unwrap();
    gpu.set_viewport().unwrap();
    gpu.end_color_pass().unwrap();
    gpu.end_frame().unwrap();
}

#[test]
fn commands_outside_a_frame_or_pass_are_refused() {
    let mut gpu = NullGpu::new(&desc());
    assert!(matches!(gpu.begin_swapchain_pass(), Err(RhiError::NotInFrame)));
    assert!(matches!(gpu.end_frame(), Err(RhiError::NotInFrame)));
    assert!(matches!(gpu.draw(3, 1, 0, 0), Err(RhiError::PassMismatch)));
    assert!(matches!(gpu.dispatch(1, 1, 1), Err(RhiError::PassMismatch)));
    assert!(matches!(gpu.write_frame_bytes(&[0u8; 4]), Err(RhiError::NotInFrame)));
    assert!(matches!(gpu.storage_barrier(Texture::null()), Err(RhiError::NotInFrame)));
    gpu.begin_frame().unwrap();
    assert_eq!(message(gpu.begin_frame().unwrap_err()), "begin_frame while a frame is open");
    gpu.begin_swapchain_pass().unwrap();
    assert!(matches!(gpu.begin_swapchain_pass(), Err(RhiError::PassMismatch)));
    assert!(matches!(gpu.end_frame(), Err(RhiError::PassMismatch)));
    assert!(matches!(gpu.dispatch(1, 1, 1), Err(RhiError::PassMismatch)));
    gpu.end_swapchain_pass().unwrap();
    assert!(matches!(gpu.end_swapchain_pass(), Err(RhiError::PassMismatch)));
    assert_eq!(
        message(gpu.begin_color_pass(&[], None).unwrap_err()),
        "begin_color_pass needs a color RT or a depth target"
    );
    gpu.end_frame().unwrap();
}

#[test]
fn frames_count_up_and_the_constant_ring_is_per_frame() {
    let mut gpu = NullGpu::new(&desc());
    for expected in 0..3u64 {
        let info = gpu.begin_frame().unwrap();
        assert_eq!(info.frame_index, expected);
        assert_eq!(info.format, Format::Bgra8Unorm);
        assert_eq!(info.extent, Extent2D { width: 64, height: 64 });
        for _ in 0..FRAME_CBV_CHUNKS {
            gpu.write_frame_bytes(&[0u8; 16]).unwrap();
        }
        assert_eq!(
            message(gpu.write_frame_bytes(&[0u8; 16]).unwrap_err()),
            "frame CBV ring exhausted: more write_frame_bytes than FRAME_CBV_CHUNKS"
        );
        gpu.end_frame().unwrap();
    }
}

#[test]
fn textures_get_fresh_slots_and_bounded_uploads() {
    let mut gpu = NullGpu::new(&desc());
    let d = TextureDesc { mip_levels: 2, ..TextureDesc::default() };
    let a = gpu.create_texture(&d).unwrap();
    let b = gpu.create_texture(&d).unwrap();
    assert_eq!((a.raw(), b.raw()), (1, 2));
    assert_eq!(gpu.bindless_index(a).unwrap(), 1);
    assert_eq!(gpu.bindless_index(b).unwrap(), 2);
    assert_eq!(message(gpu.bindless_index(Texture::from_raw(9)).unwrap_err()), "invalid texture");
    gpu.upload_texture_mip(a, 1, &[]).unwrap();
    assert_eq!(message(gpu.upload_texture_mip(a, 2, &[]).unwrap_err()), "mip out of range");
    assert_eq!(message(gpu.upload_texture_mip(Texture::from_raw(9), 0, &[]).unwrap_err()), "invalid texture");
    assert_eq!(message(gpu.bind_volume_uav(4, a).unwrap_err()), "volume UAV slot out of range");
    gpu.bind_volume_uav(3, a).unwrap();
    assert_eq!(message(gpu.bind_volume_srv(8, a).unwrap_err()), "volume SRV slot out of range");
    gpu.bind_volume_srv(7, a).unwrap();
    assert_eq!(message(gpu.read_texture(a).unwrap_err()), "read_texture needs the Vulkan backend");
}

#[test]
fn a_device_of_no_size_is_one_texel_and_resizing_to_zero_skips_frames() {
    let mut gpu = NullGpu::new(&DeviceDesc { width: 0, height: 0, ..desc() });
    assert_eq!(gpu.extent(), Extent2D { width: 1, height: 1 });
    gpu.resize(0, 10).unwrap();
    let info = gpu.begin_frame().unwrap();
    assert!(info.skipped);
    gpu.end_frame().unwrap();
    assert_eq!(gpu.present_format(), Format::Bgra8Unorm);
    gpu.wait_idle().unwrap();
}

#[test]
fn pipelines_and_buffers_are_numbered_from_one() {
    let mut gpu = NullGpu::new(&DeviceDesc::default());
    let c = gpu
        .create_compute_pipeline(&harpia::null_gpu::ComputePipelineDesc { cs_spirv: &[], cs_entry: "main" })
        .unwrap();
    let c2 = gpu
        .create_compute_pipeline(&harpia::null_gpu::ComputePipelineDesc { cs_spirv: &[], cs_entry: "main" })
        .unwrap();
    assert_ne!(c, c2);
    let s = gpu.create_storage_buffer(0, &[0u8; 8]).unwrap();
    let v = gpu.create_vertex_buffer(&[0u8; 8]).unwrap();
    assert_eq!((s.raw(), v.raw()), (1, 2));
    gpu.write_storage_buffer(s, &[1u8; 8]).unwrap();
    gpu.mark("label");
}
