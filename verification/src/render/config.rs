use vstd::prelude::*;

verus! {

/// Debug visualisation the renderer can switch to.
#[derive(Debug, Clone, Copy, PartialEq, Eq, Structural)]
pub enum DebugRenderMode {
    Normals,
    Depth,
    Albedo,
    Material,
}

/// Renderer settings.
pub struct RendererConfig {
    pub width: u32,
    pub height: u32,
    pub vsync: bool,
    pub shadow_resolution: u32,
    pub debug_mode: Option<DebugRenderMode>,
}

impl Default for RendererConfig {
    /// 1280×720 with vsync, 2048² shadows and no debug view.
    fn default() -> (c: Self)
        ensures
            c.width == 1280,
            c.height == 720,
            c.vsync,
            c.shadow_resolution == 2048,
            c.debug_mode is None,
    {
        RendererConfig { width: 1280, height: 720, vsync: true, shadow_resolution: 2048, debug_mode: None }
    }
}

} // verus!
