//! The deferred renderer: a G-buffer of four colour attachments and a depth
//! buffer, and the three passes that fill and read it. Each pass is a list of
//! commands for the graphics backend; a model of the backend's state says
//! what the commands establish.

use crate::error::Error;
use crate::geometry::Point3;
use crate::scene::Color;
use vstd::prelude::*;

verus! {

/// The attachment that holds positions.
pub const POSITION_ATTACHMENT: u8 = 0;

/// The attachment that holds normals.
pub const NORMAL_ATTACHMENT: u8 = 1;

/// The attachment that holds the unlit colour.
pub const ALBEDO_ATTACHMENT: u8 = 2;

/// The attachment that light accumulates in.
pub const LIGHT_ATTACHMENT: u8 = 3;

/// How the texels of an attachment are stored.
#[derive(Clone, Copy, Debug, PartialEq, Eq, Structural)]
pub enum TextureFormat {
    /// Four half-precision channels.
    Rgba16F,
    /// Four bytes.
    Rgba8,
}

/// Which faces are not drawn.
#[derive(Clone, Copy, Debug, PartialEq, Eq, Structural)]
pub enum Face {
    Front,
    Back,
}

/// A factor of the blend equation.
#[derive(Clone, Copy, Debug, PartialEq, Eq, Structural)]
pub enum BlendMode {
    Zero,
    One,
}

/// A shader the renderer is handed by its caller.
#[derive(Clone, Copy, Debug, PartialEq, Eq, Structural)]
pub enum Shader {
    Light,
    Final,
}

/// A shader input that the renderer sets.
#[derive(Clone, Copy, Debug, PartialEq, Eq, Structural)]
pub enum Uniform {
    PositionBuffer,
    NormalBuffer,
    AlbedoBuffer,
    LightBuffer,
    BufferSize,
    CameraPos,
}

impl Uniform {
    /// The name the shader source knows the input by.
    pub fn name(&self) -> (n: &'static str)
        ensures
            n@ == match self {
                Uniform::PositionBuffer => "position_buffer"@,
                Uniform::NormalBuffer => "normal_buffer"@,
                Uniform::AlbedoBuffer => "albedo_buffer"@,
                Uniform::LightBuffer => "light_buffer"@,
                Uniform::BufferSize => "buffer_size"@,
                Uniform::CameraPos => "camera_pos"@,
            },
    {
        match self {
            Uniform::PositionBuffer => "position_buffer",
            Uniform::NormalBuffer => "normal_buffer",
            Uniform::AlbedoBuffer => "albedo_buffer",
            Uniform::LightBuffer => "light_buffer",
            Uniform::BufferSize => "buffer_size",
            Uniform::CameraPos => "camera_pos",
        }
    }
}

/// One command for the graphics backend.
#[derive(Clone, Copy, Debug, PartialEq, Eq, Structural)]
pub enum PassCommand {
    /// Draw into the G-buffer's framebuffer.
    BindFramebuffer { frame_buffer: u32 },
    /// Draw into the caller's target.
    SetTarget,
    /// Write to the attachments `first .. first + count` only.
    DrawBuffers { first: u8, count: u8 },
    /// Cull the given faces, or none.
    Cull { face: Option<Face> },
    /// Switch writing to the depth buffer on or off.
    DepthMask { write: bool },
    /// Switch the depth test on (nearer fragments win) or off.
    DepthTest { on: bool },
    /// Add source times `src` to destination times `dst`.
    Blender { src: BlendMode, dst: BlendMode },
    /// Clear the depth buffer to the far plane.
    ClearDepth,
    /// Clear what is written to to one colour.
    ClearColor { color: Color },
    /// Use the projection the caller handed in.
    UseProjection,
    /// Use an orthographic projection over a target of the given size, and
    /// no further transform.
    UseOrthographic { width: i32, height: i32 },
    UseShader { shader: Shader },
    SetInt { uniform: Uniform, value: i32 },
    SetVec2 { uniform: Uniform, x: i32, y: i32 },
    SetVec3 { uniform: Uniform, x: i32, y: i32, z: i32 },
    /// Bind a texture to a texture unit.
    BindTexture { unit: u8, texture: u32 },
    /// Copy the depth buffer of the G-buffer into the target, over the given
    /// size.
    BlitDepth { frame_buffer: u32, width: i32, height: i32 },
    /// Draw the quad that covers the buffer: a fan of four vertices.
    DrawQuad,
}

/// What an attachment holds.
#[derive(Clone, Copy, Debug, PartialEq, Eq, Structural)]
pub enum Contents {
    /// Whatever an earlier frame left.
    Stale,
    /// The clear colour everywhere.
    Cleared,
}

/// The part of the backend's state that the passes depend on.
pub struct Pipeline {
    /// The framebuffer drawn into; `None` stands for the caller's target.
    pub frame_buffer: Option<u32>,
    /// The attachments written to: `first .. first + count`.
    pub first_buffer: u8,
    pub buffer_count: u8,
    pub cull: Option<Face>,
    pub depth_write: bool,
    pub depth_test: bool,
    pub blend_src: BlendMode,
    pub blend_dst: BlendMode,
    pub shader: Option<Shader>,
    /// The texture bound to each texture unit.
    pub units: Map<u8, u32>,
    /// The number each sampler input was given.
    pub samplers: Map<Uniform, i32>,
    /// What each attachment of the G-buffer holds.
    pub attachments: Map<u8, Contents>,
    /// Whether the quad has been drawn into the caller's target.
    pub composed: bool,
}

impl Pipeline {
    /// The attachment `a` is written to while the G-buffer is bound.
    pub open spec fn writes(self, a: u8) -> bool {
        self.frame_buffer is Some && self.first_buffer <= a < self.first_buffer + self.buffer_count
    }

    /// The state after one command.
    pub open spec fn apply(self, cmd: PassCommand) -> Pipeline {
        match cmd {
            PassCommand::BindFramebuffer { frame_buffer } => Pipeline {
                frame_buffer: Some(frame_buffer),
                ..self
            },
            PassCommand::SetTarget => Pipeline { frame_buffer: None, ..self },
            PassCommand::DrawBuffers { first, count } => Pipeline {
                first_buffer: first,
                buffer_count: count,
                ..self
            },
            PassCommand::Cull { face } => Pipeline { cull: face, ..self },
            PassCommand::DepthMask { write } => Pipeline { depth_write: write, ..self },
            PassCommand::DepthTest { on } => Pipeline { depth_test: on, ..self },
            PassCommand::Blender { src, dst } => Pipeline { blend_src: src, blend_dst: dst, ..self },
            PassCommand::ClearColor { color } => Pipeline {
                attachments: Map::new(
                    |a: u8| self.attachments.contains_key(a) || self.writes(a),
                    |a: u8|
                        if self.writes(a) {
                            Contents::Cleared
                        } else {
                            self.attachments[a]
                        },
                ),
                ..self
            },
            PassCommand::UseShader { shader } => Pipeline { shader: Some(shader), ..self },
            PassCommand::SetInt { uniform, value } => Pipeline {
                samplers: self.samplers.insert(uniform, value),
                ..self
            },
            PassCommand::BindTexture { unit, texture } => Pipeline {
                units: self.units.insert(unit, texture),
                ..self
            },
            PassCommand::DrawQuad => Pipeline {
                composed: self.composed || self.frame_buffer is None,
                ..self
            },
            _ => self,
        }
    }

    /// The state after a list of commands.
    pub open spec fn run(self, cmds: Seq<PassCommand>) -> Pipeline
        decreases cmds.len(),
    {
        if cmds.len() == 0 {
            self
        } else {
            self.run(cmds.drop_last()).apply(cmds.last())
        }
    }

    /// The sampler input `uniform` reads the texture `texture`: it was given
    /// the number of a unit that the texture is bound to.
    pub open spec fn samples(self, uniform: Uniform, texture: u32) -> bool {
        &&& self.samplers.contains_key(uniform)
        &&& 0 <= self.samplers[uniform] < 256
        &&& self.units.contains_key(self.samplers[uniform] as u8)
        &&& self.units[self.samplers[uniform] as u8] == texture
    }
}

/// The identifiers that the backend gave to the parts of a G-buffer.
#[derive(Clone, Copy, Debug, PartialEq, Eq, Structural)]
pub struct GBuffer {
    pub frame_buffer: u32,
    pub position_tex: u32,
    pub normal_tex: u32,
    pub albedo_tex: u32,
    pub light_tex: u32,
    pub depth_render_buffer: u32,
}

/// A corner of the quad that covers the buffer: where it lies and which
/// corner of the texture it shows.
#[derive(Clone, Copy, Debug, PartialEq, Eq, Structural)]
pub struct QuadVertex {
    pub x: i32,
    pub y: i32,
    pub u: i32,
    pub v: i32,
}

/// A part of a G-buffer that the backend has to free.
#[derive(Clone, Copy, Debug, PartialEq, Eq, Structural)]
pub enum Resource {
    Texture { id: u32 },
    RenderBuffer { id: u32 },
    FrameBuffer { id: u32 },
}

impl GBuffer {
    /// The format of each colour attachment: positions, normals and light
    /// in half-precision, the unlit colour in bytes.
    pub open spec fn format_spec(attachment: u8) -> TextureFormat {
        if attachment == ALBEDO_ATTACHMENT {
            TextureFormat::Rgba8
        } else {
            TextureFormat::Rgba16F
        }
    }

    pub fn format(attachment: u8) -> (f: TextureFormat)
        ensures
            f == Self::format_spec(attachment),
    {
        if attachment == ALBEDO_ATTACHMENT {
            TextureFormat::Rgba8
        } else {
            TextureFormat::Rgba16F
        }
    }

    /// The texture behind a colour attachment.
    pub open spec fn texture_spec(self, attachment: u8) -> u32 {
        if attachment == POSITION_ATTACHMENT {
            self.position_tex
        } else if attachment == NORMAL_ATTACHMENT {
            self.normal_tex
        } else if attachment == ALBEDO_ATTACHMENT {
            self.albedo_tex
        } else {
            self.light_tex
        }
    }

    pub fn texture(&self, attachment: u8) -> (t: u32)
        ensures
            t == self.texture_spec(attachment),
    {
        if attachment == POSITION_ATTACHMENT {
            self.position_tex
        } else if attachment == NORMAL_ATTACHMENT {
            self.normal_tex
        } else if attachment == ALBEDO_ATTACHMENT {
            self.albedo_tex
        } else {
            self.light_tex
        }
    }

    /// The quad that covers a buffer of the given size, as a fan: the
    /// texture's top edge lies on the buffer's bottom edge.
    pub fn quad(buffer_width: i32, buffer_height: i32) -> (q: [QuadVertex; 4])
        ensures
            q@ == seq![
                QuadVertex { x: 0, y: 0, u: 0, v: 1 },
                QuadVertex { x: buffer_width, y: 0, u: 1, v: 1 },
                QuadVertex { x: buffer_width, y: buffer_height, u: 1, v: 0 },
                QuadVertex { x: 0, y: buffer_height, u: 0, v: 0 },
            ],
    {
        let q: [QuadVertex; 4] = [
            QuadVertex { x: 0, y: 0, u: 0, v: 1 },
            QuadVertex { x: buffer_width, y: 0, u: 1, v: 1 },
            QuadVertex { x: buffer_width, y: buffer_height, u: 1, v: 0 },
            QuadVertex { x: 0, y: buffer_height, u: 0, v: 0 },
        ];
        assert(q@ =~= seq![
            QuadVertex { x: 0, y: 0, u: 0, v: 1 },
            QuadVertex { x: buffer_width, y: 0, u: 1, v: 1 },
            QuadVertex { x: buffer_width, y: buffer_height, u: 1, v: 0 },
            QuadVertex { x: 0, y: buffer_height, u: 0, v: 0 },
        ]);
        q
    }

    /// A G-buffer over the parts that the backend made, if the backend
    /// reports the framebuffer complete; an incomplete one is an error.
    pub fn new(
        frame_buffer: u32,
        position_tex: u32,
        normal_tex: u32,
        albedo_tex: u32,
        light_tex: u32,
        depth_render_buffer: u32,
        complete: bool,
    ) -> (r: Result<GBuffer, Error>)
        ensures
            complete ==> r == Ok::<GBuffer, Error>(
                GBuffer {
                    frame_buffer,
                    position_tex,
                    normal_tex,
                    albedo_tex,
                    light_tex,
                    depth_render_buffer,
                },
            ),
            !complete ==> (r matches Err(e) && e.message@ == "Framebuffer not complete"@ && e.inner
                is None),
    {
        if !complete {
            return Err(Error::new("Framebuffer not complete".to_string(), None));
        }
        Ok(
            GBuffer {
                frame_buffer: frame_buffer,
                position_tex: position_tex,
                normal_tex: normal_tex,
                albedo_tex: albedo_tex,
                light_tex: light_tex,
                depth_render_buffer: depth_render_buffer,
            },
        )
    }

    /// What has to be freed when the G-buffer goes: the four textures, then
    /// the depth buffer, then the framebuffer.
    pub fn release(&self) -> (r: [Resource; 6])
        ensures
            r@ == seq![
                Resource::Texture { id: self.position_tex },
                Resource::Texture { id: self.normal_tex },
                Resource::Texture { id: self.albedo_tex },
                Resource::Texture { id: self.light_tex },
                Resource::RenderBuffer { id: self.depth_render_buffer },
                Resource::FrameBuffer { id: self.frame_buffer },
            ],
    {
        let r: [Resource; 6] = [
            Resource::Texture { id: self.position_tex },
            Resource::Texture { id: self.normal_tex },
            Resource::Texture { id: self.albedo_tex },
            Resource::Texture { id: self.light_tex },
            Resource::RenderBuffer { id: self.depth_render_buffer },
            Resource::FrameBuffer { id: self.frame_buffer },
        ];
        assert(r@ =~= seq![
            Resource::Texture { id: self.position_tex },
            Resource::Texture { id: self.normal_tex },
            Resource::Texture { id: self.albedo_tex },
            Resource::Texture { id: self.light_tex },
            Resource::RenderBuffer { id: self.depth_render_buffer },
            Resource::FrameBuffer { id: self.frame_buffer },
        ]);
        r
    }
}


/// The colour the G-buffer is cleared to: black, and see-through.
pub open spec fn clear_color() -> Color {
    Color { r: 0, g: 0, b: 0, a: 0 }
}

/// The colour the target is cleared to before the final pass draws over it.
pub open spec fn backdrop_color() -> Color {
    Color { r: 0, g: 76, b: 0, a: 255 }
}

/// The renderer: a G-buffer of a fixed size, which need not be the size of
/// what is shown.
#[derive(Clone, Copy, Debug, PartialEq, Eq, Structural)]
pub struct DeferredRenderer {
    pub g_buffer: GBuffer,
    pub width: i32,
    pub height: i32,
}

impl DeferredRenderer {
    /// The commands of the forward pass: every attachment is written to,
    /// back faces are culled, depth is tested and written, what is drawn
    /// replaces what was there, and depth and colour start out cleared.
    pub open spec fn forward_pass_spec(self) -> Seq<PassCommand> {
        seq![
            PassCommand::BindFramebuffer { frame_buffer: self.g_buffer.frame_buffer },
            PassCommand::DrawBuffers { first: 0, count: 4 },
            PassCommand::Cull { face: Some(Face::Back) },
            PassCommand::DepthMask { write: true },
            PassCommand::Blender { src: BlendMode::One, dst: BlendMode::Zero },
            PassCommand::DepthTest { on: true },
            PassCommand::ClearDepth,
            PassCommand::ClearColor { color: clear_color() },
        ]
    }

    /// The commands of the light pass: only the light attachment is written
    /// to, depth is neither tested nor written, front faces are culled, what
    /// is drawn adds to what was there, and the light shader reads positions
    /// and normals from the first two texture units.
    pub open spec fn light_pass_spec(self, camera_pos: Point3) -> Seq<PassCommand> {
        seq![
            PassCommand::BindFramebuffer { frame_buffer: self.g_buffer.frame_buffer },
            PassCommand::DrawBuffers { first: LIGHT_ATTACHMENT, count: 1 },
            PassCommand::Blender { src: BlendMode::One, dst: BlendMode::One },
            PassCommand::UseProjection,
            PassCommand::DepthTest { on: false },
            PassCommand::Cull { face: Some(Face::Front) },
            PassCommand::DepthMask { write: false },
            PassCommand::UseShader { shader: Shader::Light },
            PassCommand::SetInt { uniform: Uniform::PositionBuffer, value: 0 },
            PassCommand::SetInt { uniform: Uniform::NormalBuffer, value: 1 },
            PassCommand::SetVec2 { uniform: Uniform::BufferSize, x: self.width, y: self.height },
            PassCommand::SetVec3 {
                uniform: Uniform::CameraPos,
                x: camera_pos.x,
                y: camera_pos.y,
                z: camera_pos.z,
            },
            PassCommand::BindTexture { unit: 0, texture: self.g_buffer.position_tex },
            PassCommand::BindTexture { unit: 1, texture: self.g_buffer.normal_tex },
        ]
    }

    /// The commands of the final pass: the caller's target is drawn into,
    /// without depth test or culling, the depth buffer is copied over, and
    /// the final shader reads the four attachments from the texture units
    /// one to four while the quad is drawn.
    pub open spec fn final_pass_spec(self, target_width: i32, target_height: i32) -> Seq<PassCommand> {
        seq![
            PassCommand::SetTarget,
            PassCommand::ClearColor { color: backdrop_color() },
            PassCommand::DepthTest { on: false },
            PassCommand::Blender { src: BlendMode::One, dst: BlendMode::Zero },
            PassCommand::BlitDepth {
                frame_buffer: self.g_buffer.frame_buffer,
                width: target_width,
                height: target_height,
            },
            PassCommand::UseOrthographic { width: target_width, height: target_height },
            PassCommand::UseShader { shader: Shader::Final },
            PassCommand::SetInt { uniform: Uniform::PositionBuffer, value: 1 },
            PassCommand::SetInt { uniform: Uniform::NormalBuffer, value: 2 },
            PassCommand::SetInt { uniform: Uniform::AlbedoBuffer, value: 3 },
            PassCommand::SetInt { uniform: Uniform::LightBuffer, value: 4 },
            PassCommand::Cull { face: None },
            PassCommand::BindTexture { unit: 1, texture: self.g_buffer.position_tex },
            PassCommand::BindTexture { unit: 2, texture: self.g_buffer.normal_tex },
            PassCommand::BindTexture { unit: 3, texture: self.g_buffer.albedo_tex },
            PassCommand::BindTexture { unit: 4, texture: self.g_buffer.light_tex },
            PassCommand::DrawQuad,
        ]
    }

    /// A renderer over the parts that the backend made for a G-buffer of the
    /// given size; an incomplete framebuffer is an error.
    pub fn new(
        frame_buffer: u32,
        position_tex: u32,
        normal_tex: u32,
        albedo_tex: u32,
        light_tex: u32,
        depth_render_buffer: u32,
        complete: bool,
        width: i32,
        height: i32,
    ) -> (r: Result<Self, Error>)
        ensures
            complete ==> r == Ok::<Self, Error>(
                DeferredRenderer {
                    g_buffer: GBuffer {
                        frame_buffer,
                        position_tex,
                        normal_tex,
                        albedo_tex,
                        light_tex,
                        depth_render_buffer,
                    },
                    width,
                    height,
                },
            ),
            !complete ==> (r matches Err(e) && e.message@ == "Framebuffer not complete"@ && e.inner
                is None),
    {
        match GBuffer::new(
            frame_buffer,
            position_tex,
            normal_tex,
            albedo_tex,
            light_tex,
            depth_render_buffer,
            complete,
        ) {
            Ok(g_buffer) => Ok(Self { g_buffer: g_buffer, width: width, height: height }),
            Err(e) => Err(e),
        }
    }

    /// What the backend has to do before the scene is drawn into the
    /// G-buffer.
    pub fn begin_forward_pass(&mut self) -> (cmds: Vec<PassCommand>)
        ensures
            *final(self) == *old(self),
            cmds@ == old(self).forward_pass_spec(),
    {
        let mut cmds: Vec<PassCommand> = Vec::new();
        cmds.push(PassCommand::BindFramebuffer { frame_buffer: self.g_buffer.frame_buffer });
        cmds.push(PassCommand::DrawBuffers { first: 0, count: 4 });
        cmds.push(PassCommand::Cull { face: Some(Face::Back) });
        cmds.push(PassCommand::DepthMask { write: true });
        cmds.push(PassCommand::Blender { src: BlendMode::One, dst: BlendMode::Zero });
        cmds.push(PassCommand::DepthTest { on: true });
        cmds.push(PassCommand::ClearDepth);
        cmds.push(PassCommand::ClearColor { color: Color { r: 0, g: 0, b: 0, a: 0 } });
        assert(cmds@ =~= self.forward_pass_spec());
        cmds
    }

    /// What the backend has to do before the light volumes are drawn.
    pub fn begin_light_pass(&mut self, camera_pos: Point3) -> (cmds: Vec<PassCommand>)
        ensures
            *final(self) == *old(self),
            cmds@ == old(self).light_pass_spec(camera_pos),
    {
        let mut cmds: Vec<PassCommand> = Vec::new();
        cmds.push(PassCommand::BindFramebuffer { frame_buffer: self.g_buffer.frame_buffer });
        cmds.push(PassCommand::DrawBuffers { first: LIGHT_ATTACHMENT, count: 1 });
        cmds.push(PassCommand::Blender { src: BlendMode::One, dst: BlendMode::One });
        cmds.push(PassCommand::UseProjection);
        cmds.push(PassCommand::DepthTest { on: false });
        cmds.push(PassCommand::Cull { face: Some(Face::Front) });
        cmds.push(PassCommand::DepthMask { write: false });
        cmds.push(PassCommand::UseShader { shader: Shader::Light });
        cmds.push(PassCommand::SetInt { uniform: Uniform::PositionBuffer, value: 0 });
        cmds.push(PassCommand::SetInt { uniform: Uniform::NormalBuffer, value: 1 });
        cmds.push(PassCommand::SetVec2 { uniform: Uniform::BufferSize, x: self.width, y: self.height });
        cmds.push(
            PassCommand::SetVec3 {
                uniform: Uniform::CameraPos,
                x: camera_pos.x,
                y: camera_pos.y,
                z: camera_pos.z,
            },
        );
        cmds.push(PassCommand::BindTexture { unit: 0, texture: self.g_buffer.position_tex });
        cmds.push(PassCommand::BindTexture { unit: 1, texture: self.g_buffer.normal_tex });
        assert(cmds@ =~= self.light_pass_spec(camera_pos));
        cmds
    }

    /// What the backend has to do to compose the G-buffer into a target of
    /// the given size.
    pub fn final_pass(&mut self, target_width: i32, target_height: i32) -> (cmds: Vec<PassCommand>)
        ensures
            *final(self) == *old(self),
            cmds@ == old(self).final_pass_spec(target_width, target_height),
    {
        let mut cmds: Vec<PassCommand> = Vec::new();
        cmds.push(PassCommand::SetTarget);
        cmds.push(PassCommand::ClearColor { color: Color { r: 0, g: 76, b: 0, a: 255 } });
        cmds.push(PassCommand::DepthTest { on: false });
        cmds.push(PassCommand::Blender { src: BlendMode::One, dst: BlendMode::Zero });
        cmds.push(
            PassCommand::BlitDepth {
                frame_buffer: self.g_buffer.frame_buffer,
                width: target_width,
                height: target_height,
            },
        );
        cmds.push(PassCommand::UseOrthographic { width: target_width, height: target_height });
        cmds.push(PassCommand::UseShader { shader: Shader::Final });
        cmds.push(PassCommand::SetInt { uniform: Uniform::PositionBuffer, value: 1 });
        cmds.push(PassCommand::SetInt { uniform: Uniform::NormalBuffer, value: 2 });
        cmds.push(PassCommand::SetInt { uniform: Uniform::AlbedoBuffer, value: 3 });
        cmds.push(PassCommand::SetInt { uniform: Uniform::LightBuffer, value: 4 });
        cmds.push(PassCommand::Cull { face: None });
        cmds.push(PassCommand::BindTexture { unit: 1, texture: self.g_buffer.position_tex });
        cmds.push(PassCommand::BindTexture { unit: 2, texture: self.g_buffer.normal_tex });
        cmds.push(PassCommand::BindTexture { unit: 3, texture: self.g_buffer.albedo_tex });
        cmds.push(PassCommand::BindTexture { unit: 4, texture: self.g_buffer.light_tex });
        cmds.push(PassCommand::DrawQuad);
        assert(cmds@ =~= self.final_pass_spec(target_width, target_height));
        cmds
    }
}

/// Running a list with one more command is running the list and then the
/// command.
pub proof fn lemma_run_push(p: Pipeline, cmds: Seq<PassCommand>, cmd: PassCommand)
    ensures
        p.run(cmds.push(cmd)) == p.run(cmds).apply(cmd),
{
    assert(cmds.push(cmd).drop_last() =~= cmds);
}

/// Running two lists one after the other is running the second from where
/// the first ends.
pub proof fn lemma_run_append(p: Pipeline, first: Seq<PassCommand>, second: Seq<PassCommand>)
    ensures
        p.run(first + second) == p.run(first).run(second),
    decreases second.len(),
{
    if second.len() == 0 {
        assert(first + second =~= first);
    } else {
        lemma_run_append(p, first, second.drop_last());
        assert((first + second).drop_last() =~= first + second.drop_last());
    }
}

/// Whatever state the backend is in, after the forward pass's commands the
/// G-buffer is bound, all four attachments are written to and hold the clear
/// colour, back faces are culled, depth is tested and written, and what is
/// drawn replaces what was there.
pub proof fn law_forward_pass_establishes(r: DeferredRenderer, p: Pipeline)
    ensures
        ({
            let q = p.run(r.forward_pass_spec());
            &&& q.frame_buffer == Some(r.g_buffer.frame_buffer)
            &&& forall|a: u8| q.writes(a) <==> a < 4
            &&& q.cull == Some(Face::Back)
            &&& q.depth_write
            &&& q.depth_test
            &&& q.blend_src == BlendMode::One
            &&& q.blend_dst == BlendMode::Zero
            &&& forall|a: u8| a < 4 ==> q.attachments.contains_key(a) && q.attachments[a] == Contents::Cleared
        }),
{
    let c = r.forward_pass_spec();
    assert(p.run(c.take(0)) == p);
    lemma_run_push(p, c.take(0), c[0]);
    assert(c.take(1) =~= c.take(0).push(c[0]));
    lemma_run_push(p, c.take(1), c[1]);
    assert(c.take(2) =~= c.take(1).push(c[1]));
    lemma_run_push(p, c.take(2), c[2]);
    assert(c.take(3) =~= c.take(2).push(c[2]));
    lemma_run_push(p, c.take(3), c[3]);
    assert(c.take(4) =~= c.take(3).push(c[3]));
    lemma_run_push(p, c.take(4), c[4]);
    assert(c.take(5) =~= c.take(4).push(c[4]));
    lemma_run_push(p, c.take(5), c[5]);
    assert(c.take(6) =~= c.take(5).push(c[5]));
    lemma_run_push(p, c.take(6), c[6]);
    assert(c.take(7) =~= c.take(6).push(c[6]));
    lemma_run_push(p, c.take(7), c[7]);
    assert(c.take(8) =~= c.take(7).push(c[7]));
    assert(c.take(8) =~= c);
}

/// Whatever state the backend is in, after the light pass's commands the
/// G-buffer is bound, only the light attachment is written to, depth is
/// neither tested nor written, front faces are culled, what is drawn adds to
/// what was there, the light shader reads the position and normal textures,
/// and no attachment has been cleared.
pub proof fn law_light_pass_establishes(r: DeferredRenderer, p: Pipeline, camera_pos: Point3)
    ensures
        ({
            let q = p.run(r.light_pass_spec(camera_pos));
            &&& q.frame_buffer == Some(r.g_buffer.frame_buffer)
            &&& forall|a: u8| q.writes(a) <==> a == LIGHT_ATTACHMENT
            &&& q.cull == Some(Face::Front)
            &&& !q.depth_write
            &&& !q.depth_test
            &&& q.blend_src == BlendMode::One
            &&& q.blend_dst == BlendMode::One
            &&& q.shader == Some(Shader::Light)
            &&& q.samples(Uniform::PositionBuffer, r.g_buffer.position_tex)
            &&& q.samples(Uniform::NormalBuffer, r.g_buffer.normal_tex)
            &&& q.attachments == p.attachments
        }),
{
    let c = r.light_pass_spec(camera_pos);
    assert(p.run(c.take(0)) == p);
    lemma_run_push(p, c.take(0), c[0]);
    assert(c.take(1) =~= c.take(0).push(c[0]));
    lemma_run_push(p, c.take(1), c[1]);
    assert(c.take(2) =~= c.take(1).push(c[1]));
    lemma_run_push(p, c.take(2), c[2]);
    assert(c.take(3) =~= c.take(2).push(c[2]));
    lemma_run_push(p, c.take(3), c[3]);
    assert(c.take(4) =~= c.take(3).push(c[3]));
    lemma_run_push(p, c.take(4), c[4]);
    assert(c.take(5) =~= c.take(4).push(c[4]));
    lemma_run_push(p, c.take(5), c[5]);
    assert(c.take(6) =~= c.take(5).push(c[5]));
    lemma_run_push(p, c.take(6), c[6]);
    assert(c.take(7) =~= c.take(6).push(c[6]));
    lemma_run_push(p, c.take(7), c[7]);
    assert(c.take(8) =~= c.take(7).push(c[7]));
    lemma_run_push(p, c.take(8), c[8]);
    assert(c.take(9) =~= c.take(8).push(c[8]));
    lemma_run_push(p, c.take(9), c[9]);
    assert(c.take(10) =~= c.take(9).push(c[9]));
    lemma_run_push(p, c.take(10), c[10]);
    assert(c.take(11) =~= c.take(10).push(c[10]));
    lemma_run_push(p, c.take(11), c[11]);
    assert(c.take(12) =~= c.take(11).push(c[11]));
    lemma_run_push(p, c.take(12), c[12]);
    assert(c.take(13) =~= c.take(12).push(c[12]));
    lemma_run_push(p, c.take(13), c[13]);
    assert(c.take(14) =~= c.take(13).push(c[13]));
    assert(c.take(14) =~= c);
}

/// Whatever state the backend is in, after the final pass's commands the
/// caller's target has been drawn into, without depth test or culling, by
/// the final shader reading the four textures of the G-buffer, and no
/// attachment has been cleared.
pub proof fn law_final_pass_establishes(
    r: DeferredRenderer,
    p: Pipeline,
    target_width: i32,
    target_height: i32,
)
    ensures
        ({
            let q = p.run(r.final_pass_spec(target_width, target_height));
            &&& q.frame_buffer is None
            &&& q.cull is None
            &&& !q.depth_test
            &&& q.blend_src == BlendMode::One
            &&& q.blend_dst == BlendMode::Zero
            &&& q.shader == Some(Shader::Final)
            &&& q.samples(Uniform::PositionBuffer, r.g_buffer.position_tex)
            &&& q.samples(Uniform::NormalBuffer, r.g_buffer.normal_tex)
            &&& q.samples(Uniform::AlbedoBuffer, r.g_buffer.albedo_tex)
            &&& q.samples(Uniform::LightBuffer, r.g_buffer.light_tex)
            &&& q.composed
            &&& q.attachments =~= p.attachments
        }),
{
    let c = r.final_pass_spec(target_width, target_height);
    assert(p.run(c.take(0)) == p);
    lemma_run_push(p, c.take(0), c[0]);
    assert(c.take(1) =~= c.take(0).push(c[0]));
    lemma_run_push(p, c.take(1), c[1]);
    assert(c.take(2) =~= c.take(1).push(c[1]));
    lemma_run_push(p, c.take(2), c[2]);
    assert(c.take(3) =~= c.take(2).push(c[2]));
    lemma_run_push(p, c.take(3), c[3]);
    assert(c.take(4) =~= c.take(3).push(c[3]));
    lemma_run_push(p, c.take(4), c[4]);
    assert(c.take(5) =~= c.take(4).push(c[4]));
    lemma_run_push(p, c.take(5), c[5]);
    assert(c.take(6) =~= c.take(5).push(c[5]));
    lemma_run_push(p, c.take(6), c[6]);
    assert(c.take(7) =~= c.take(6).push(c[6]));
    lemma_run_push(p, c.take(7), c[7]);
    assert(c.take(8) =~= c.take(7).push(c[7]));
    lemma_run_push(p, c.take(8), c[8]);
    assert(c.take(9) =~= c.take(8).push(c[8]));
    lemma_run_push(p, c.take(9), c[9]);
    assert(c.take(10) =~= c.take(9).push(c[9]));
    lemma_run_push(p, c.take(10), c[10]);
    assert(c.take(11) =~= c.take(10).push(c[10]));
    lemma_run_push(p, c.take(11), c[11]);
    assert(c.take(12) =~= c.take(11).push(c[11]));
    lemma_run_push(p, c.take(12), c[12]);
    assert(c.take(13) =~= c.take(12).push(c[12]));
    lemma_run_push(p, c.take(13), c[13]);
    assert(c.take(14) =~= c.take(13).push(c[13]));
    lemma_run_push(p, c.take(14), c[14]);
    assert(c.take(15) =~= c.take(14).push(c[14]));
    lemma_run_push(p, c.take(15), c[15]);
    assert(c.take(16) =~= c.take(15).push(c[15]));
    lemma_run_push(p, c.take(16), c[16]);
    assert(c.take(17) =~= c.take(16).push(c[16]));
    assert(c.take(17) =~= c);
}

/// A final pass right after a forward pass, with no light pass between
/// them, composes the target from a light attachment that holds the clear
/// colour, whatever an earlier frame left in it.
pub proof fn law_final_after_forward_reads_cleared_light(
    r: DeferredRenderer,
    p: Pipeline,
    target_width: i32,
    target_height: i32,
)
    ensures
        ({
            let q = p.run(r.forward_pass_spec() + r.final_pass_spec(target_width, target_height));
            &&& q.composed
            &&& q.samples(Uniform::LightBuffer, r.g_buffer.light_tex)
            &&& q.attachments.contains_key(LIGHT_ATTACHMENT)
            &&& q.attachments[LIGHT_ATTACHMENT] == Contents::Cleared
        }),
{
    law_forward_pass_establishes(r, p);
    let mid = p.run(r.forward_pass_spec());
    law_final_pass_establishes(r, mid, target_width, target_height);
    lemma_run_append(p, r.forward_pass_spec(), r.final_pass_spec(target_width, target_height));
}

} // verus!
