use slhack::deferred::{
    BlendMode, DeferredRenderer, Face, GBuffer, PassCommand, QuadVertex, Resource, Shader,
    TextureFormat, Uniform, ALBEDO_ATTACHMENT, LIGHT_ATTACHMENT, NORMAL_ATTACHMENT,
    POSITION_ATTACHMENT,
};
use slhack::geometry::Point3;
use slhack::scene::Color;

fn renderer() -> DeferredRenderer {
    DeferredRenderer::new(7, 11, 12, 13, 14, 21, true, 320, 200).expect("complete")
}

#[test]
fn incomplete_framebuffer_is_an_error() {
    let e = GBuffer::new(1, 2, 3, 4, 5, 6, false).expect_err("incomplete");
    assert_eq!(e.message, "Framebuffer not complete");
    assert!(e.inner.is_none());
    let e = DeferredRenderer::new(1, 2, 3, 4, 5, 6, false, 10, 10).expect_err("incomplete");
    assert_eq!(e.message, "Framebuffer not complete");
}

#[test]
fn complete_framebuffer_keeps_its_parts() {
    let r = renderer();
    assert_eq!(
        r.g_buffer,
        GBuffer {
            frame_buffer: 7,
            position_tex: 11,
            normal_tex: 12,
            albedo_tex: 13,
            light_tex: 14,
            depth_render_buffer: 21,
        }
    );
    assert_eq!((r.width, r.height), (320, 200));
}

#[test]
fn attachments_have_their_formats_and_textures() {
    let g = renderer().g_buffer;
    assert_eq!(GBuffer::format(POSITION_ATTACHMENT), TextureFormat::Rgba16F);
    assert_eq!(GBuffer::format(NORMAL_ATTACHMENT), TextureFormat::Rgba16F);
    assert_eq!(GBuffer::format(ALBEDO_ATTACHMENT), TextureFormat::Rgba8);
    assert_eq!(GBuffer::format(LIGHT_ATTACHMENT), TextureFormat::Rgba16F);
    assert_eq!(g.texture(POSITION_ATTACHMENT), 11);
    assert_eq!(g.texture(NORMAL_ATTACHMENT), 12);
    assert_eq!(g.texture(ALBEDO_ATTACHMENT), 13);
    assert_eq!(g.texture(LIGHT_ATTACHMENT), 14);
}

#[test]
fn quad_covers_the_buffer() {
    assert_eq!(
        GBuffer::quad(320, 200),
        [
            QuadVertex { x: 0, y: 0, u: 0, v: 1 },
            QuadVertex { x: 320, y: 0, u: 1, v: 1 },
            QuadVertex { x: 320, y: 200, u: 1, v: 0 },
            QuadVertex { x: 0, y: 200, u: 0, v: 0 },
        ]
    );
}

#[test]
fn release_frees_textures_then_buffers() {
    assert_eq!(
        renderer().g_buffer.release(),
        [
            Resource::Texture { id: 11 },
            Resource::Texture { id: 12 },
            Resource::Texture { id: 13 },
            Resource::Texture { id: 14 },
            Resource::RenderBuffer { id: 21 },
            Resource::FrameBuffer { id: 7 },
        ]
    );
}

#[test]
fn forward_pass_commands() {
    let mut r = renderer();
    let cmds = r.begin_forward_pass();
    assert_eq!(
        cmds,
        vec![
            PassCommand::BindFramebuffer { frame_buffer: 7 },
            PassCommand::DrawBuffers { first: 0, count: 4 },
            PassCommand::Cull { face: Some(Face::Back) },
            PassCommand::DepthMask { write: true },
            PassCommand::Blender { src: BlendMode::One, dst: BlendMode::Zero },
            PassCommand::DepthTest { on: true },
            PassCommand::ClearDepth,
            PassCommand::ClearColor { color: Color { r: 0, g: 0, b: 0, a: 0 } },
        ]
    );
    assert_eq!(r, renderer());
}

#[test]
fn light_pass_commands() {
    let mut r = renderer();
    let cmds = r.begin_light_pass(Point3::new(1, 2, 3));
    assert_eq!(
        cmds,
        vec![
            PassCommand::BindFramebuffer { frame_buffer: 7 },
            PassCommand::DrawBuffers { first: 3, count: 1 },
            PassCommand::Blender { src: BlendMode::One, dst: BlendMode::One },
            PassCommand::UseProjection,
            PassCommand::DepthTest { on: false },
            PassCommand::Cull { face: Some(Face::Front) },
            PassCommand::DepthMask { write: false },
            PassCommand::UseShader { shader: Shader::Light },
            PassCommand::SetInt { uniform: Uniform::PositionBuffer, value: 0 },
            PassCommand::SetInt { uniform: Uniform::NormalBuffer, value: 1 },
            PassCommand::SetVec2 { uniform: Uniform::BufferSize, x: 320, y: 200 },
            PassCommand::SetVec3 { uniform: Uniform::CameraPos, x: 1, y: 2, z: 3 },
            PassCommand::BindTexture { unit: 0, texture: 11 },
            PassCommand::BindTexture { unit: 1, texture: 12 },
        ]
    );
}

#[test]
fn final_pass_commands() {
    let mut r = renderer();
    let cmds = r.final_pass(640, 400);
    assert_eq!(
        cmds,
        vec![
            PassCommand::SetTarget,
            PassCommand::ClearColor { color: Color { r: 0, g: 76, b: 0, a: 255 } },
            PassCommand::DepthTest { on: false },
            PassCommand::Blender { src: BlendMode::One, dst: BlendMode::Zero },
            PassCommand::BlitDepth { frame_buffer: 7, width: 640, height: 400 },
            PassCommand::UseOrthographic { width: 640, height: 400 },
            PassCommand::UseShader { shader: Shader::Final },
            PassCommand::SetInt { uniform: Uniform::PositionBuffer, value: 1 },
            PassCommand::SetInt { uniform: Uniform::NormalBuffer, value: 2 },
            PassCommand::SetInt { uniform: Uniform::AlbedoBuffer, value: 3 },
            PassCommand::SetInt { uniform: Uniform::LightBuffer, value: 4 },
            PassCommand::Cull { face: None },
            PassCommand::BindTexture { unit: 1, texture: 11 },
            PassCommand::BindTexture { unit: 2, texture: 12 },
            PassCommand::BindTexture { unit: 3, texture: 13 },
            PassCommand::BindTexture { unit: 4, texture: 14 },
            PassCommand::DrawQuad,
        ]
    );
}

#[test]
fn final_pass_right_after_forward_pass_clears_before_it_composes() {
    let mut r = renderer();
    let mut cmds = r.begin_forward_pass();
    cmds.extend(r.final_pass(320, 200));
    let bound = cmds.iter().position(|c| *c == PassCommand::DrawBuffers { first: 0, count: 4 });
    let cleared = cmds
        .iter()
        .position(|c| *c == PassCommand::ClearColor { color: Color { r: 0, g: 0, b: 0, a: 0 } });
    let sampled = cmds.iter().position(|c| *c == PassCommand::BindTexture { unit: 4, texture: 14 });
    let drawn = cmds.iter().position(|c| *c == PassCommand::DrawQuad);
    assert!(bound.unwrap() < cleared.unwrap());
    assert!(cleared.unwrap() < sampled.unwrap());
    assert!(sampled.unwrap() < drawn.unwrap());
}

#[test]
fn uniforms_have_the_names_the_shaders_use() {
    assert_eq!(Uniform::PositionBuffer.name(), "position_buffer");
    assert_eq!(Uniform::NormalBuffer.name(), "normal_buffer");
    assert_eq!(Uniform::AlbedoBuffer.name(), "albedo_buffer");
    assert_eq!(Uniform::LightBuffer.name(), "light_buffer");
    assert_eq!(Uniform::BufferSize.name(), "buffer_size");
    assert_eq!(Uniform::CameraPos.name(), "camera_pos");
}
