//! Render graph: who reads what, and the barriers that follow.
//!
//! Passes declare what they do to each resource; the graph validates the
//! declaration, derives the barriers between consecutive accesses of the same
//! resource, and settles the load operation of each output. It does not alias
//! memory nor reorder passes. It knows nothing of Vulkan: it speaks in
//! [`Access`] and emits [`BarrierDesc`], which a backend translates.

use vstd::prelude::*;

use crate::rank::{ranked, sort_ranked, RankKey};
use crate::rhi::{Barrier, BarrierDesc, Buffer, Texture};

verus! {

/// What a pass does to a resource.
#[derive(Clone, Copy, Debug, PartialEq, Eq, Hash)]
pub enum Access {
    /// Written as a color attachment.
    ColorWrite,
    /// Written as depth.
    DepthWrite,
    /// Tested against depth, not written.
    DepthRead,
    /// Sampled in a shader.
    Sampled,
    /// Read through a storage binding (buffer or image).
    StorageRead,
    /// Written through a storage binding.
    StorageWrite,
    /// Read by an indirect draw.
    Indirect,
    /// Vertex or index input.
    VertexInput,
    /// Written by the CPU before the pass (staging upload).
    HostWrite,
}

/// Image layout, in neutral terms.
#[derive(Clone, Copy, Debug, PartialEq, Eq)]
pub enum Layout {
    Undefined,
    ColorAttachment,
    DepthAttachment,
    DepthReadOnly,
    ShaderRead,
    General,
}

pub open spec fn spec_writes(a: Access) -> bool {
    a is ColorWrite || a is DepthWrite || a is StorageWrite || a is HostWrite
}

pub open spec fn spec_layout(a: Access) -> Layout {
    match a {
        Access::ColorWrite => Layout::ColorAttachment,
        Access::DepthWrite => Layout::DepthAttachment,
        Access::DepthRead => Layout::DepthReadOnly,
        Access::Sampled => Layout::ShaderRead,
        Access::StorageRead => Layout::General,
        Access::StorageWrite => Layout::General,
        Access::Indirect => Layout::Undefined,
        Access::VertexInput => Layout::Undefined,
        Access::HostWrite => Layout::Undefined,
    }
}

/// The neutral code a backend translates into stage, access and layout.
pub open spec fn spec_access_code(a: Access) -> u32 {
    match a {
        Access::ColorWrite => 0,
        Access::DepthWrite => 1,
        Access::DepthRead => 2,
        Access::Sampled => 3,
        Access::StorageRead => 4,
        Access::StorageWrite => 5,
        Access::Indirect => 6,
        Access::VertexInput => 7,
        Access::HostWrite => 8,
    }
}

impl Access {
    pub fn writes(self) -> (w: bool)
        ensures
            w == spec_writes(self),
    {
        match self {
            Access::ColorWrite | Access::DepthWrite | Access::StorageWrite | Access::HostWrite => true,
            _ => false,
        }
    }

    /// Every access reads except the pure writes; depth writing also tests.
    pub fn reads(self) -> (r: bool)
        ensures
            r == (!spec_writes(self) || self is DepthWrite),
    {
        !self.writes() || matches!(self, Access::DepthWrite)
    }

    /// The layout an image must be in for this access.
    pub fn layout(self) -> (l: Layout)
        ensures
            l == spec_layout(self),
    {
        match self {
            Access::ColorWrite => Layout::ColorAttachment,
            Access::DepthWrite => Layout::DepthAttachment,
            Access::DepthRead => Layout::DepthReadOnly,
            Access::Sampled => Layout::ShaderRead,
            Access::StorageRead | Access::StorageWrite => Layout::General,
            Access::Indirect | Access::VertexInput | Access::HostWrite => Layout::Undefined,
        }
    }
}

/// The code of an access, as the backend expects it.
pub fn access_code(a: Access) -> (c: u32)
    ensures
        c == spec_access_code(a),
{
    match a {
        Access::ColorWrite => 0,
        Access::DepthWrite => 1,
        Access::DepthRead => 2,
        Access::Sampled => 3,
        Access::StorageRead => 4,
        Access::StorageWrite => 5,
        Access::Indirect => 6,
        Access::VertexInput => 7,
        Access::HostWrite => 8,
    }
}

fn same_layout(a: Layout, b: Layout) -> (r: bool)
    ensures
        r == (a == b),
{
    match (a, b) {
        (Layout::Undefined, Layout::Undefined) => true,
        (Layout::ColorAttachment, Layout::ColorAttachment) => true,
        (Layout::DepthAttachment, Layout::DepthAttachment) => true,
        (Layout::DepthReadOnly, Layout::DepthReadOnly) => true,
        (Layout::ShaderRead, Layout::ShaderRead) => true,
        (Layout::General, Layout::General) => true,
        _ => false,
    }
}

#[derive(Clone, Copy, Debug, PartialEq, Eq)]
pub enum Handle {
    Texture(Texture),
    Buffer(Buffer),
}

impl Handle {
    pub fn is_texture(self) -> (t: bool)
        ensures
            t == self is Texture,
    {
        matches!(self, Handle::Texture(_))
    }
}

/// A resource of the graph.
#[derive(Clone, Copy, Debug)]
pub struct Resource {
    pub name: &'static str,
    pub handle: Handle,
    /// Its content from before this frame must survive: it may be read
    /// without anyone writing it this frame.
    pub persistent: bool,
}

/// Index of a resource in the graph.
#[derive(Clone, Copy, Debug, PartialEq, Eq, Hash, PartialOrd, Ord)]
pub struct ResourceId(pub u32);

/// Index of a pass in the graph.
#[derive(Clone, Copy, Debug, Default, PartialEq, Eq, PartialOrd, Ord)]
pub struct PassId(pub u32);

/// What to do with the content of an output when the pass starts.
#[derive(Clone, Copy, Debug, PartialEq)]
pub enum Load {
    /// Clear to this color, given as the bit patterns of its four channels.
    Clear([u32; 4]),
    /// Load what is there: only valid when there is content.
    Keep,
    /// Nobody wants what is there.
    Discard,
}

/// The model of a declared pass.
pub struct PassModel {
    pub name: &'static str,
    pub uses: Seq<(ResourceId, Access)>,
    pub loads: Seq<(ResourceId, Load)>,
}

/// A declared pass.
#[derive(Clone, Debug)]
pub struct Pass {
    pub name: &'static str,
    uses: Vec<(ResourceId, Access)>,
    loads: Vec<(ResourceId, Load)>,
}

impl View for Pass {
    type V = PassModel;

    closed spec fn view(&self) -> PassModel {
        PassModel { name: self.name, uses: self.uses@, loads: self.loads@ }
    }
}

impl Pass {
    pub fn new(name: &'static str) -> (p: Self)
        ensures
            p@.name == name,
            p@.uses.len() == 0,
            p@.loads.len() == 0,
    {
        Pass { name, uses: Vec::new(), loads: Vec::new() }
    }

    /// Declares an access. Chainable.
    pub fn uses(self, res: ResourceId, access: Access) -> (p: Self)
        ensures
            p@.name == self@.name,
            p@.uses == self@.uses.push((res, access)),
            p@.loads == self@.loads,
    {
        let mut p = self;
        p.uses.push((res, access));
        p
    }

    /// Declares what to do with the content of an output. Without it, an
    /// output is discarded.
    pub fn load(self, res: ResourceId, load: Load) -> (p: Self)
        ensures
            p@.name == self@.name,
            p@.uses == self@.uses,
            p@.loads == self@.loads.push((res, load)),
    {
        let mut p = self;
        p.loads.push((res, load));
        p
    }

    pub fn accesses(&self) -> (a: &[(ResourceId, Access)])
        ensures
            a@ == self@.uses,
    {
        self.uses.as_slice()
    }
}

/// What went wrong in the declaration.
#[derive(Clone, Debug, PartialEq)]
pub enum GraphError {
    /// A transient read without anyone writing it this frame.
    ReadBeforeWrite { resource: &'static str, pass: &'static str },
    /// `Load::Keep` on a resource that has no content.
    KeepWithoutContent { resource: &'static str, pass: &'static str },
    /// One pass declares two accesses to one resource in different layouts.
    ConflictingAccess { resource: &'static str, pass: &'static str, a: Access, b: Access },
    /// A `Load` for a resource the pass does not write.
    LoadWithoutWrite { resource: &'static str, pass: &'static str },
}

/// The plan of a pass: the barriers before it, and its load operations.
#[derive(Clone, Debug)]
pub struct PassPlan {
    pub pass: PassId,
    /// Barriers to emit before the pass starts.
    pub barriers: Vec<BarrierDesc>,
    /// Load operation per output, by resource.
    pub loads: Vec<(ResourceId, Load)>,
}

/// The model of a frame's graph.
pub struct GraphModel {
    pub resources: Seq<Resource>,
    pub passes: Seq<PassModel>,
}

/// The graph of a frame.
#[derive(Clone, Debug)]
pub struct RenderGraph {
    resources: Vec<Resource>,
    passes: Vec<Pass>,
}

impl View for RenderGraph {
    type V = GraphModel;

    closed spec fn view(&self) -> GraphModel {
        GraphModel { resources: self.resources@, passes: self.passes@.map_values(|p: Pass| p@) }
    }
}

/// The name shown for a resource id the graph does not know.
pub const UNKNOWN_RESOURCE: &'static str = "<desconhecido>";

impl Default for RenderGraph {
    fn default() -> (g: Self)
        ensures
            g@.resources.len() == 0,
            g@.passes.len() == 0,
    {
        RenderGraph::new()
    }
}

impl RenderGraph {
    pub fn new() -> (g: Self)
        ensures
            g@.resources.len() == 0,
            g@.passes.len() == 0,
    {
        let g = RenderGraph { resources: Vec::new(), passes: Vec::new() };
        assert(g@.passes =~= Seq::<PassModel>::empty());
        g
    }

    /// Registers a transient texture (its content does not survive the frame).
    pub fn texture(&mut self, name: &'static str, tex: Texture) -> (id: ResourceId)
        requires
            old(self)@.resources.len() < u32::MAX,
        ensures
            final(self)@.resources == old(self)@.resources.push(
                Resource { name, handle: Handle::Texture(tex), persistent: false },
            ),
            final(self)@.passes == old(self)@.passes,
            id.0 == old(self)@.resources.len(),
    {
        self.add(name, Handle::Texture(tex), false)
    }

    /// Registers a texture whose content survives between frames.
    pub fn persistent_texture(&mut self, name: &'static str, tex: Texture) -> (id: ResourceId)
        requires
            old(self)@.resources.len() < u32::MAX,
        ensures
            final(self)@.resources == old(self)@.resources.push(
                Resource { name, handle: Handle::Texture(tex), persistent: true },
            ),
            final(self)@.passes == old(self)@.passes,
            id.0 == old(self)@.resources.len(),
    {
        self.add(name, Handle::Texture(tex), true)
    }

    pub fn buffer(&mut self, name: &'static str, buf: Buffer) -> (id: ResourceId)
        requires
            old(self)@.resources.len() < u32::MAX,
        ensures
            final(self)@.resources == old(self)@.resources.push(
                Resource { name, handle: Handle::Buffer(buf), persistent: false },
            ),
            final(self)@.passes == old(self)@.passes,
            id.0 == old(self)@.resources.len(),
    {
        self.add(name, Handle::Buffer(buf), false)
    }

    pub fn persistent_buffer(&mut self, name: &'static str, buf: Buffer) -> (id: ResourceId)
        requires
            old(self)@.resources.len() < u32::MAX,
        ensures
            final(self)@.resources == old(self)@.resources.push(
                Resource { name, handle: Handle::Buffer(buf), persistent: true },
            ),
            final(self)@.passes == old(self)@.passes,
            id.0 == old(self)@.resources.len(),
    {
        self.add(name, Handle::Buffer(buf), true)
    }

    fn add(&mut self, name: &'static str, handle: Handle, persistent: bool) -> (id: ResourceId)
        requires
            old(self)@.resources.len() < u32::MAX,
        ensures
            final(self)@.resources == old(self)@.resources.push(Resource { name, handle, persistent }),
            final(self)@.passes == old(self)@.passes,
            id.0 == old(self)@.resources.len(),
    {
        self.resources.push(Resource { name, handle, persistent });
        ResourceId((self.resources.len() - 1) as u32)
    }

    pub fn pass(&mut self, pass: Pass) -> (id: PassId)
        requires
            old(self)@.passes.len() < u32::MAX,
        ensures
            final(self)@.passes == old(self)@.passes.push(pass@),
            final(self)@.resources == old(self)@.resources,
            id.0 == old(self)@.passes.len(),
    {
        let ghost before = self.passes@;
        self.passes.push(pass);
        proof {
            assert(self@.passes =~= old(self)@.passes.push(pass@));
        }
        PassId((self.passes.len() - 1) as u32)
    }

    pub fn resources(&self) -> (r: &[Resource])
        ensures
            r@ == self@.resources,
    {
        self.resources.as_slice()
    }

    pub fn passes(&self) -> (p: &[Pass])
        ensures
            p@.map_values(|q: Pass| q@) == self@.passes,
    {
        self.passes.as_slice()
    }
}

// ---------------------------------------------------------------------------
// Validation.
// ---------------------------------------------------------------------------

pub open spec fn written_at(written: Seq<bool>, r: ResourceId) -> bool {
    (r.0 as int) < written.len() && written[r.0 as int]
}

pub open spec fn res_name(resources: Seq<Resource>, r: ResourceId) -> &'static str {
    if (r.0 as int) < resources.len() {
        resources[r.0 as int].name
    } else {
        UNKNOWN_RESOURCE
    }
}

/// Conflicts of use `i` with the uses after it and before `j_end`, in order.
pub open spec fn conflicts_of(
    uses: Seq<(ResourceId, Access)>,
    resources: Seq<Resource>,
    pass: &'static str,
    i: int,
    j_end: int,
) -> Seq<GraphError>
    decreases j_end - i,
{
    if j_end <= i + 1 {
        Seq::empty()
    } else {
        let prev = conflicts_of(uses, resources, pass, i, j_end - 1);
        let j = j_end - 1;
        if uses[i].0 == uses[j].0 && spec_layout(uses[i].1) != spec_layout(uses[j].1) {
            prev.push(
                GraphError::ConflictingAccess {
                    resource: res_name(resources, uses[i].0),
                    pass,
                    a: uses[i].1,
                    b: uses[j].1,
                },
            )
        } else {
            prev
        }
    }
}

/// Conflicts between two uses of one resource in different layouts, for the
/// first `i_end` uses, pair by pair.
pub open spec fn conflicts_upto(
    uses: Seq<(ResourceId, Access)>,
    resources: Seq<Resource>,
    pass: &'static str,
    i_end: int,
) -> Seq<GraphError>
    decreases i_end,
{
    if i_end <= 0 {
        Seq::empty()
    } else {
        conflicts_upto(uses, resources, pass, i_end - 1) + conflicts_of(
            uses,
            resources,
            pass,
            i_end - 1,
            uses.len() as int,
        )
    }
}

/// Reads of resources nobody has written, among the first `n` uses.
pub open spec fn read_errors(
    uses: Seq<(ResourceId, Access)>,
    written: Seq<bool>,
    resources: Seq<Resource>,
    pass: &'static str,
    n: int,
) -> Seq<GraphError>
    decreases n,
{
    if n <= 0 {
        Seq::empty()
    } else {
        let prev = read_errors(uses, written, resources, pass, n - 1);
        let u = uses[n - 1];
        if !spec_writes(u.1) && !written_at(written, u.0) {
            prev.push(GraphError::ReadBeforeWrite { resource: res_name(resources, u.0), pass })
        } else {
            prev
        }
    }
}

/// The pass writes `r` as a color or depth output.
pub open spec fn writes_output(uses: Seq<(ResourceId, Access)>, r: ResourceId) -> bool {
    exists|k: int| 0 <= k < uses.len() && #[trigger] uses[k].0 == r && (uses[k].1 is ColorWrite || uses[k].1 is DepthWrite)
}

/// Loads on outputs the pass does not write, and `Keep` without content,
/// among the first `n` loads.
pub open spec fn load_errors(
    pass: PassModel,
    written: Seq<bool>,
    resources: Seq<Resource>,
    n: int,
) -> Seq<GraphError>
    decreases n,
{
    if n <= 0 {
        Seq::empty()
    } else {
        let prev = load_errors(pass, written, resources, n - 1);
        let l = pass.loads[n - 1];
        if !writes_output(pass.uses, l.0) {
            prev.push(GraphError::LoadWithoutWrite { resource: res_name(resources, l.0), pass: pass.name })
        } else if l.1 is Keep && !written_at(written, l.0) {
            prev.push(GraphError::KeepWithoutContent { resource: res_name(resources, l.0), pass: pass.name })
        } else {
            prev
        }
    }
}

/// What has content after the first `n` uses of a pass run.
pub open spec fn mark_written(written: Seq<bool>, uses: Seq<(ResourceId, Access)>, n: int) -> Seq<bool>
    decreases n,
{
    if n <= 0 {
        written
    } else {
        let w = mark_written(written, uses, n - 1);
        let u = uses[n - 1];
        if spec_writes(u.1) && (u.0.0 as int) < w.len() {
            w.update(u.0.0 as int, true)
        } else {
            w
        }
    }
}

/// Every error of one pass, given what has content before it.
pub open spec fn pass_errors(pass: PassModel, written: Seq<bool>, resources: Seq<Resource>) -> Seq<GraphError> {
    conflicts_upto(pass.uses, resources, pass.name, pass.uses.len() as int)
        + read_errors(pass.uses, written, resources, pass.name, pass.uses.len() as int)
        + load_errors(pass, written, resources, pass.loads.len() as int)
}

/// The errors of the first `n` passes, and what has content after them.
pub open spec fn validate_upto(g: GraphModel, n: int) -> (Seq<GraphError>, Seq<bool>)
    decreases n,
{
    if n <= 0 {
        (Seq::empty(), g.resources.map_values(|r: Resource| r.persistent))
    } else {
        let prev = validate_upto(g, n - 1);
        let pass = g.passes[n - 1];
        (prev.0 + pass_errors(pass, prev.1, g.resources), mark_written(prev.1, pass.uses, pass.uses.len() as int))
    }
}

/// Every error of the declaration, pass by pass.
pub open spec fn graph_errors(g: GraphModel) -> Seq<GraphError> {
    validate_upto(g, g.passes.len() as int).0
}

impl RenderGraph {
    fn name(&self, res: ResourceId) -> (n: &'static str)
        ensures
            n == res_name(self@.resources, res),
    {
        if (res.0 as usize) < self.resources.len() {
            self.resources[res.0 as usize].name
        } else {
            UNKNOWN_RESOURCE
        }
    }

    fn pass_errors_into(
        &self,
        p: usize,
        written: &Vec<bool>,
        errors: &mut Vec<GraphError>,
    )
        requires
            p < self@.passes.len(),
        ensures
            final(errors)@ == old(errors)@ + pass_errors(self@.passes[p as int], written@, self@.resources),
    {
        let pass = &self.passes[p];
        assert(pass@ == self@.passes[p as int]);
        let ghost pm = pass@;
        let ghost start = errors@;
        let n = pass.uses.len();
        let mut i: usize = 0;
        while i < n
            invariant
                i <= n,
                n == pm.uses.len(),
                pass@ == pm,
                errors@ == start + conflicts_upto(pm.uses, self@.resources, pm.name, i as int),
            decreases n - i,
        {
            let ghost row_start = errors@;
            let (res_a, a) = pass.uses[i];
            let mut j: usize = i + 1;
            proof {
                assert(conflicts_of(pm.uses, self@.resources, pm.name, i as int, j as int) =~= Seq::empty());
            }
            while j < n
                invariant
                    i < j <= n,
                    n == pm.uses.len(),
                    pass@ == pm,
                    (res_a, a) == pm.uses[i as int],
                    errors@ == row_start + conflicts_of(pm.uses, self@.resources, pm.name, i as int, j as int),
                decreases n - j,
            {
                let (res_b, b) = pass.uses[j];
                if res_a.0 == res_b.0 && !same_layout(a.layout(), b.layout()) {
                    errors.push(GraphError::ConflictingAccess { resource: self.name(res_a), pass: pass.name, a, b });
                }
                proof {
                    assert(errors@ =~= row_start + conflicts_of(pm.uses, self@.resources, pm.name, i as int, j + 1));
                }
                j = j + 1;
            }
            proof {
                assert(errors@ =~= start + conflicts_upto(pm.uses, self@.resources, pm.name, i + 1));
            }
            i = i + 1;
        }
        let ghost mid = errors@;
        let mut k: usize = 0;
        while k < n
            invariant
                k <= n,
                n == pm.uses.len(),
                pass@ == pm,
                errors@ == mid + read_errors(pm.uses, written@, self@.resources, pm.name, k as int),
            decreases n - k,
        {
            let (res, access) = pass.uses[k];
            if !access.writes() {
                let idx = res.0 as usize;
                let present = idx < written.len() && written[idx];
                if !present {
                    errors.push(GraphError::ReadBeforeWrite { resource: self.name(res), pass: pass.name });
                }
            }
            proof {
                assert(errors@ =~= mid + read_errors(pm.uses, written@, self@.resources, pm.name, k + 1));
            }
            k = k + 1;
        }
        let ghost mid2 = errors@;
        let m = pass.loads.len();
        let mut l: usize = 0;
        while l < m
            invariant
                l <= m,
                m == pm.loads.len(),
                n == pm.uses.len(),
                pass@ == pm,
                errors@ == mid2 + load_errors(pm, written@, self@.resources, l as int),
            decreases m - l,
        {
            let (res, load) = pass.loads[l];
            let mut writes_it = false;
            let mut q: usize = 0;
            while q < n
                invariant
                    q <= n,
                    n == pm.uses.len(),
                    pass@ == pm,
                    writes_it == exists|k: int|
                        0 <= k < q && #[trigger] pm.uses[k].0 == res && (pm.uses[k].1 is ColorWrite
                            || pm.uses[k].1 is DepthWrite),
                decreases n - q,
            {
                let (r, a) = pass.uses[q];
                if r.0 == res.0 && matches!(a, Access::ColorWrite | Access::DepthWrite) {
                    writes_it = true;
                }
                q = q + 1;
            }
            if !writes_it {
                errors.push(GraphError::LoadWithoutWrite { resource: self.name(res), pass: pass.name });
            } else {
                let idx = res.0 as usize;
                let present = idx < written.len() && written[idx];
                if matches!(load, Load::Keep) && !present {
                    errors.push(GraphError::KeepWithoutContent { resource: self.name(res), pass: pass.name });
                }
            }
            proof {
                assert(errors@ =~= mid2 + load_errors(pm, written@, self@.resources, l + 1));
            }
            l = l + 1;
        }
        proof {
            assert(errors@ =~= start + pass_errors(pm, written@, self@.resources));
        }
    }

    /// Validates the declaration and returns **every** error, pass by pass:
    /// conflicting accesses, reads of transients nobody wrote this frame,
    /// loads on outputs the pass does not write, and `Keep` without content.
    /// A pass's own writes count only after the pass is validated.
    pub fn validate(&self) -> (r: Result<(), Vec<GraphError>>)
        ensures
            graph_errors(self@).len() == 0 ==> r is Ok,
            graph_errors(self@).len() > 0 ==> (r matches Err(e) && e@ == graph_errors(self@)),
    {
        let mut errors: Vec<GraphError> = Vec::new();
        let mut written: Vec<bool> = Vec::new();
        let mut r: usize = 0;
        while r < self.resources.len()
            invariant
                r <= self.resources.len(),
                written@ =~= self@.resources.map_values(|x: Resource| x.persistent).take(r as int),
            decreases self.resources.len() - r,
        {
            written.push(self.resources[r].persistent);
            r = r + 1;
        }
        proof {
            assert(written@ =~= validate_upto(self@, 0).1);
            assert(errors@ =~= validate_upto(self@, 0).0);
        }
        let mut p: usize = 0;
        while p < self.passes.len()
            invariant
                p <= self.passes.len(),
                self.passes.len() == self@.passes.len(),
                errors@ == validate_upto(self@, p as int).0,
                written@ == validate_upto(self@, p as int).1,
            decreases self.passes.len() - p,
        {
            self.pass_errors_into(p, &written, &mut errors);
            let pass = &self.passes[p];
            assert(pass@ == self@.passes[p as int]);
            let ghost pm = pass@;
            let ghost w0 = written@;
            let mut k: usize = 0;
            while k < pass.uses.len()
                invariant
                    k <= pass.uses.len(),
                    pass@ == pm,
                    written@ == mark_written(w0, pm.uses, k as int),
                decreases pass.uses.len() - k,
            {
                let (res, access) = pass.uses[k];
                if access.writes() {
                    let idx = res.0 as usize;
                    if idx < written.len() {
                        written.set(idx, true);
                    }
                }
                k = k + 1;
            }
            p = p + 1;
        }
        if errors.len() == 0 {
            Ok(())
        } else {
            Err(errors)
        }
    }
}

// ---------------------------------------------------------------------------
// Compilation.
// ---------------------------------------------------------------------------

/// The model of a pass plan.
pub struct PassPlanModel {
    pub pass: PassId,
    pub barriers: Seq<BarrierDesc>,
    pub loads: Seq<(ResourceId, Load)>,
}

impl View for PassPlan {
    type V = PassPlanModel;

    open spec fn view(&self) -> PassPlanModel {
        PassPlanModel { pass: self.pass, barriers: self.barriers@, loads: self.loads@ }
    }
}

/// Keys that order entries by resource, then by declaration.
pub open spec fn by_resource<T>(entries: Seq<(ResourceId, T)>) -> Seq<RankKey> {
    Seq::new(
        entries.len(),
        |i: int| RankKey { prio: 0, light: entries[i].0.0, index: i as usize, version: 0 },
    )
}

/// `entries` sorted by resource, keeping declaration order among equals.
pub open spec fn sorted_by_resource<T>(entries: Seq<(ResourceId, T)>) -> Seq<(ResourceId, T)> {
    ranked(by_resource(entries)).map_values(|k: RankKey| entries[k.index as int])
}

/// The first `n` entries of `s`, without an entry equal to the one before it.
pub open spec fn dedup_upto<T>(s: Seq<T>, n: int) -> Seq<T>
    decreases n,
{
    if n <= 0 {
        Seq::empty()
    } else {
        let d = dedup_upto(s, n - 1);
        if n >= 2 && s[n - 1] == s[n - 2] {
            d
        } else {
            d.push(s[n - 1])
        }
    }
}

/// The uses of a pass in the order the plan derives barriers for them.
pub open spec fn plan_uses(uses: Seq<(ResourceId, Access)>) -> Seq<(ResourceId, Access)> {
    let s = sorted_by_resource(uses);
    dedup_upto(s, s.len() as int)
}

pub open spec fn barrier_of(h: Handle) -> Barrier {
    match h {
        Handle::Texture(t) => Barrier::Texture(t),
        Handle::Buffer(b) => Barrier::Buffer(b),
    }
}

/// Between two consecutive accesses to one resource a barrier is needed if
/// either writes, or if the image layout changes.
pub open spec fn needs_barrier(prev: Access, next: Access, is_texture: bool) -> bool {
    spec_writes(prev) || spec_writes(next) || (is_texture && spec_layout(prev) != spec_layout(next))
}

/// The barrier one use needs before it, given the last access of every
/// resource: between two accesses if either writes or the layout changes,
/// and on the first touch of a texture, to set its layout from undefined.
pub open spec fn use_barrier(
    last: Seq<Option<Access>>,
    resources: Seq<Resource>,
    u: (ResourceId, Access),
) -> Option<BarrierDesc> {
    let idx = u.0.0 as int;
    let prev = if idx < last.len() { last[idx] } else { None };
    let handle = resources[idx].handle;
    match prev {
        Some(p) => if needs_barrier(p, u.1, handle is Texture) {
            Some(BarrierDesc { resource: barrier_of(handle), src: spec_access_code(p), dst: spec_access_code(u.1) })
        } else {
            None
        },
        None => if handle is Texture {
            Some(
                BarrierDesc {
                    resource: barrier_of(handle),
                    src: spec_access_code(Access::HostWrite),
                    dst: spec_access_code(u.1),
                },
            )
        } else {
            None
        },
    }
}

/// One use planned: its barrier, if any, and the resource's last access.
pub open spec fn barrier_step(
    st: (Seq<BarrierDesc>, Seq<Option<Access>>),
    resources: Seq<Resource>,
    u: (ResourceId, Access),
) -> (Seq<BarrierDesc>, Seq<Option<Access>>) {
    let idx = u.0.0 as int;
    let barriers = match use_barrier(st.1, resources, u) {
        Some(b) => st.0.push(b),
        None => st.0,
    };
    let last = if idx < st.1.len() { st.1.update(idx, Some(u.1)) } else { st.1 };
    (barriers, last)
}

pub open spec fn barriers_upto(
    uses: Seq<(ResourceId, Access)>,
    resources: Seq<Resource>,
    last: Seq<Option<Access>>,
    n: int,
) -> (Seq<BarrierDesc>, Seq<Option<Access>>)
    decreases n,
{
    if n <= 0 {
        (Seq::empty(), last)
    } else {
        barrier_step(barriers_upto(uses, resources, last, n - 1), resources, uses[n - 1])
    }
}

/// The plans of the first `n` passes, and the last access of each resource.
pub open spec fn compile_upto(g: GraphModel, n: int) -> (Seq<PassPlanModel>, Seq<Option<Access>>)
    decreases n,
{
    if n <= 0 {
        (Seq::empty(), Seq::new(g.resources.len(), |i: int| None))
    } else {
        let prev = compile_upto(g, n - 1);
        let pass = g.passes[n - 1];
        let uses = plan_uses(pass.uses);
        let b = barriers_upto(uses, g.resources, prev.1, uses.len() as int);
        (
            prev.0.push(
                PassPlanModel {
                    pass: PassId((n - 1) as u32),
                    barriers: b.0,
                    loads: sorted_by_resource(pass.loads),
                },
            ),
            b.1,
        )
    }
}

/// Every use names a resource of the graph.
pub open spec fn uses_in_range(g: GraphModel) -> bool {
    forall|p: int, k: int|
        0 <= p < g.passes.len() && 0 <= k < g.passes[p].uses.len() ==> (#[trigger] g.passes[p].uses[k]).0.0
            < g.resources.len()
}

proof fn lemma_dedup_bounded(s: Seq<(ResourceId, Access)>, n: int, bound: int)
    requires
        n <= s.len(),
        forall|i: int| 0 <= i < s.len() ==> (#[trigger] s[i]).0.0 < bound,
    ensures
        dedup_upto(s, n).len() <= if n < 0 { 0 } else { n },
        forall|j: int| 0 <= j < dedup_upto(s, n).len() ==> (#[trigger] dedup_upto(s, n)[j]).0.0 < bound,
    decreases n,
{
    if n > 0 {
        lemma_dedup_bounded(s, n - 1, bound);
    }
}

proof fn lemma_code_injective(a: Access, b: Access)
    ensures
        spec_access_code(a) == spec_access_code(b) ==> a == b,
{
}

/// Sorts declared entries by resource, keeping declaration order among equal
/// resources.
fn sort_by_resource<T: Copy>(entries: &Vec<(ResourceId, T)>) -> (out: Vec<(ResourceId, T)>)
    ensures
        out@ == sorted_by_resource(entries@),
{
    let mut keys: Vec<RankKey> = Vec::new();
    let mut i: usize = 0;
    while i < entries.len()
        invariant
            i <= entries.len(),
            keys@ =~= by_resource(entries@).take(i as int),
        decreases entries.len() - i,
    {
        keys.push(RankKey { prio: 0, light: entries[i].0.0, index: i, version: 0 });
        i = i + 1;
    }
    proof {
        assert(keys@ =~= by_resource(entries@));
    }
    let sorted = sort_ranked(keys);
    proof {
        crate::rank::lemma_ranked_indices(by_resource(entries@), entries.len() as int);
    }
    let mut out: Vec<(ResourceId, T)> = Vec::new();
    let mut k: usize = 0;
    while k < sorted.len()
        invariant
            k <= sorted.len(),
            sorted@ == ranked(by_resource(entries@)),
            forall|j: int| 0 <= j < sorted.len() ==> (#[trigger] sorted@[j]).index < entries.len(),
            out@ =~= sorted_by_resource(entries@).take(k as int),
        decreases sorted.len() - k,
    {
        let e = entries[sorted[k].index];
        out.push(e);
        k = k + 1;
    }
    proof {
        assert(out@ =~= sorted_by_resource(entries@));
    }
    out
}

impl RenderGraph {
    /// Derives the barriers and load operations, pass by pass.
    ///
    /// The uses of a pass are taken by resource (then declaration order),
    /// without repeats. Between two consecutive accesses to one resource there
    /// is a barrier if either writes or the image layout changes; the first
    /// touch of a texture sets its layout. Two reads in one layout need
    /// nothing. Loads come sorted by resource.
    pub fn compile(&self) -> (plans: Vec<PassPlan>)
        requires
            uses_in_range(self@),
        ensures
            plans@.map_values(|p: PassPlan| p@) == compile_upto(self@, self@.passes.len() as int).0,
    {
        let mut last: Vec<Option<Access>> = Vec::new();
        let mut r: usize = 0;
        while r < self.resources.len()
            invariant
                r <= self.resources.len(),
                last@ =~= Seq::new(r as nat, |i: int| None::<Access>),
            decreases self.resources.len() - r,
        {
            last.push(None);
            r = r + 1;
        }
        let mut plans: Vec<PassPlan> = Vec::new();
        let mut p: usize = 0;
        proof {
            assert(plans@.map_values(|q: PassPlan| q@) =~= compile_upto(self@, 0).0);
        }
        while p < self.passes.len()
            invariant
                p <= self.passes.len(),
                self.passes.len() == self@.passes.len(),
                uses_in_range(self@),
                plans@.map_values(|q: PassPlan| q@) == compile_upto(self@, p as int).0,
                last@ == compile_upto(self@, p as int).1,
                last.len() == self.resources.len(),
            decreases self.passes.len() - p,
        {
            let pass = &self.passes[p];
            assert(pass@ == self@.passes[p as int]);
            let ghost pm = pass@;
            let sorted = sort_by_resource(&pass.uses);
            // Drop repeats of the same use.
            let mut uses: Vec<(ResourceId, Access)> = Vec::new();
            let mut k: usize = 0;
            while k < sorted.len()
                invariant
                    k <= sorted.len(),
                    sorted@ == sorted_by_resource(pm.uses),
                    uses@ == dedup_upto(sorted@, k as int),
                decreases sorted.len() - k,
            {
                let (r, a) = sorted[k];
                let repeat = if k >= 1 {
                    let (r0, a0) = sorted[k - 1];
                    proof { lemma_code_injective(a, a0); }
                    r.0 == r0.0 && access_code(a) == access_code(a0)
                } else {
                    false
                };
                if !repeat {
                    uses.push((r, a));
                }
                k = k + 1;
            }
            proof {
                crate::rank::lemma_ranked_indices(by_resource(pm.uses), pm.uses.len() as int);
                assert forall|i: int| 0 <= i < sorted@.len() implies (#[trigger] sorted@[i]).0.0 < self@.resources.len() by {
                    let ki = ranked(by_resource(pm.uses))[i].index as int;
                    assert(sorted@[i] == pm.uses[ki]);
                    assert(self@.passes[p as int].uses[ki].0.0 < self@.resources.len());
                }
                lemma_dedup_bounded(sorted@, sorted@.len() as int, self@.resources.len() as int);
            }
            let ghost last0 = last@;
            let mut barriers: Vec<BarrierDesc> = Vec::new();
            let mut j: usize = 0;
            while j < uses.len()
                invariant
                    j <= uses.len(),
                    last.len() == self.resources.len(),
                    forall|jj: int| 0 <= jj < uses@.len() ==> (#[trigger] uses@[jj]).0.0 < self@.resources.len(),
                    (barriers@, last@) == barriers_upto(uses@, self@.resources, last0, j as int),
                decreases uses.len() - j,
            {
                let ghost before = (barriers@, last@);
                let (res, access) = uses[j];
                let idx = res.0 as usize;
                let handle = self.resources[idx].handle;
                let resource = match handle {
                    Handle::Texture(t) => Barrier::Texture(t),
                    Handle::Buffer(b) => Barrier::Buffer(b),
                };
                match last[idx] {
                    Some(prev) => {
                        let layout_change = handle.is_texture() && !same_layout(prev.layout(), access.layout());
                        if prev.writes() || access.writes() || layout_change {
                            barriers.push(BarrierDesc { resource, src: access_code(prev), dst: access_code(access) });
                        }
                    },
                    None => {
                        if handle.is_texture() {
                            barriers.push(
                                BarrierDesc { resource, src: access_code(Access::HostWrite), dst: access_code(access) },
                            );
                        }
                    },
                }
                last.set(idx, Some(access));
                proof {
                    assert((barriers@, last@) =~= barrier_step(before, self@.resources, uses@[j as int]));
                }
                j = j + 1;
            }
            let loads = sort_by_resource(&pass.loads);
            plans.push(PassPlan { pass: PassId(p as u32), barriers, loads });
            proof {
                assert(plans@.map_values(|q: PassPlan| q@) =~= compile_upto(self@, p + 1).0);
            }
            p = p + 1;
        }
        plans
    }
}

// ---------------------------------------------------------------------------
// What the plan guarantees.
// ---------------------------------------------------------------------------

/// The plan of pass `p` in the plan of the whole graph.
pub open spec fn plan_of(g: GraphModel, p: int) -> PassPlanModel {
    compile_upto(g, g.passes.len() as int).0[p]
}

/// Before the `j`-th use of pass `p` is planned: the barriers planned so far
/// for `p`, and the last access of every resource.
pub open spec fn before_use(g: GraphModel, p: int, j: int) -> (Seq<BarrierDesc>, Seq<Option<Access>>) {
    barriers_upto(plan_uses(g.passes[p].uses), g.resources, compile_upto(g, p).1, j)
}

proof fn lemma_barriers_grow(
    uses: Seq<(ResourceId, Access)>,
    resources: Seq<Resource>,
    last: Seq<Option<Access>>,
    j: int,
    n: int,
)
    requires
        0 <= j <= n,
    ensures
        barriers_upto(uses, resources, last, j).0.len() <= barriers_upto(uses, resources, last, n).0.len(),
        forall|i: int|
            0 <= i < barriers_upto(uses, resources, last, j).0.len() ==> #[trigger] barriers_upto(
                uses,
                resources,
                last,
                j,
            ).0[i] == barriers_upto(uses, resources, last, n).0[i],
    decreases n - j,
{
    if j < n {
        lemma_barriers_grow(uses, resources, last, j, n - 1);
        let a = barriers_upto(uses, resources, last, n - 1);
        let b = barriers_upto(uses, resources, last, n);
        assert(forall|i: int| 0 <= i < a.0.len() ==> a.0[i] == #[trigger] b.0[i]);
    }
}

proof fn lemma_barriers_sound(
    uses: Seq<(ResourceId, Access)>,
    resources: Seq<Resource>,
    last: Seq<Option<Access>>,
    n: int,
)
    requires
        0 <= n,
    ensures
        forall|k: int|
            0 <= k < barriers_upto(uses, resources, last, n).0.len() ==> exists|j: int|
                0 <= j < n && #[trigger] use_barrier(barriers_upto(uses, resources, last, j).1, resources, uses[j])
                    == Some(#[trigger] barriers_upto(uses, resources, last, n).0[k]),
    decreases n,
{
    if n > 0 {
        lemma_barriers_sound(uses, resources, last, n - 1);
        let a = barriers_upto(uses, resources, last, n - 1);
        let b = barriers_upto(uses, resources, last, n);
        assert forall|k: int| 0 <= k < b.0.len() implies exists|j: int|
            0 <= j < n && #[trigger] use_barrier(barriers_upto(uses, resources, last, j).1, resources, uses[j])
                == Some(#[trigger] b.0[k]) by {
            if k < a.0.len() {
                let j = choose|j: int|
                    0 <= j < n - 1 && #[trigger] use_barrier(
                        barriers_upto(uses, resources, last, j).1,
                        resources,
                        uses[j],
                    ) == Some(a.0[k]);
                assert(b.0[k] == a.0[k]);
                assert(use_barrier(barriers_upto(uses, resources, last, j).1, resources, uses[j]) == Some(b.0[k]));
            } else {
                assert(use_barrier(barriers_upto(uses, resources, last, n - 1).1, resources, uses[n - 1]) == Some(
                    b.0[k],
                ));
            }
        }
    }
}

proof fn lemma_last_len(uses: Seq<(ResourceId, Access)>, resources: Seq<Resource>, last: Seq<Option<Access>>, n: int)
    ensures
        barriers_upto(uses, resources, last, n).1.len() == last.len(),
    decreases n,
{
    if n > 0 {
        lemma_last_len(uses, resources, last, n - 1);
    }
}

proof fn lemma_compile_prefix(g: GraphModel, m: int, n: int)
    requires
        0 <= m <= n,
    ensures
        compile_upto(g, n).0.len() == n,
        compile_upto(g, n).1.len() == g.resources.len(),
        forall|p: int| 0 <= p < m ==> #[trigger] compile_upto(g, n).0[p] == compile_upto(g, m).0[p],
    decreases n,
{
    if n > 0 {
        if m < n {
            lemma_compile_prefix(g, m, n - 1);
        } else {
            lemma_compile_prefix(g, n - 1, n - 1);
        }
        let prev = compile_upto(g, n - 1);
        let uses = plan_uses(g.passes[n - 1].uses);
        lemma_last_len(uses, g.resources, prev.1, uses.len() as int);
    }
}

/// The plan of pass `p` carries the barriers that planning its uses made.
proof fn lemma_plan_of(g: GraphModel, p: int)
    requires
        0 <= p < g.passes.len(),
    ensures
        plan_of(g, p).barriers == before_use(g, p, plan_uses(g.passes[p].uses).len() as int).0,
        compile_upto(g, p).1.len() == g.resources.len(),
{
    lemma_compile_prefix(g, p + 1, g.passes.len() as int);
    lemma_compile_prefix(g, p, p);
}

/// Every use of a graph whose uses name its resources names one of them.
proof fn lemma_plan_uses_in_range(g: GraphModel, p: int)
    requires
        uses_in_range(g),
        0 <= p < g.passes.len(),
    ensures
        forall|j: int|
            0 <= j < plan_uses(g.passes[p].uses).len() ==> (#[trigger] plan_uses(g.passes[p].uses)[j]).0.0
                < g.resources.len(),
{
    let pm = g.passes[p];
    crate::rank::lemma_ranked_indices(by_resource(pm.uses), pm.uses.len() as int);
    let sorted = sorted_by_resource(pm.uses);
    assert forall|i: int| 0 <= i < sorted.len() implies (#[trigger] sorted[i]).0.0 < g.resources.len() by {
        let ki = ranked(by_resource(pm.uses))[i].index as int;
        assert(sorted[i] == pm.uses[ki]);
        assert(g.passes[p].uses[ki].0.0 < g.resources.len());
    }
    lemma_dedup_bounded(sorted, sorted.len() as int, g.resources.len() as int);
}

/// Between two consecutive accesses to one resource, if either writes or the
/// image layout changes, the plan of the later pass has a barrier from the
/// first access to the second; the first touch of a texture gets one from
/// the host too.
pub proof fn every_needed_transition_gets_a_barrier(g: GraphModel, p: int, j: int)
    requires
        uses_in_range(g),
        0 <= p < g.passes.len(),
        0 <= j < plan_uses(g.passes[p].uses).len(),
    ensures
        ({
            let u = plan_uses(g.passes[p].uses)[j];
            let handle = g.resources[u.0.0 as int].handle;
            let prev = before_use(g, p, j).1[u.0.0 as int];
            match prev {
                Some(a) => needs_barrier(a, u.1, handle is Texture) ==> plan_of(g, p).barriers.contains(
                    BarrierDesc {
                        resource: barrier_of(handle),
                        src: spec_access_code(a),
                        dst: spec_access_code(u.1),
                    },
                ),
                None => handle is Texture ==> plan_of(g, p).barriers.contains(
                    BarrierDesc {
                        resource: barrier_of(handle),
                        src: spec_access_code(Access::HostWrite),
                        dst: spec_access_code(u.1),
                    },
                ),
            }
        }),
{
    let uses = plan_uses(g.passes[p].uses);
    let n = uses.len() as int;
    let last = compile_upto(g, p).1;
    lemma_plan_of(g, p);
    lemma_plan_uses_in_range(g, p);
    lemma_last_len(uses, g.resources, last, j);
    lemma_barriers_grow(uses, g.resources, last, j + 1, n);
    let st = barriers_upto(uses, g.resources, last, j);
    let next = barriers_upto(uses, g.resources, last, j + 1);
    assert(next == barrier_step(st, g.resources, uses[j]));
    if let Some(b) = use_barrier(st.1, g.resources, uses[j]) {
        assert(next.0[st.0.len() as int] == b);
        assert(plan_of(g, p).barriers[st.0.len() as int] == b);
    }
}

/// The plan adds no barrier that no use asked for: each one is the barrier
/// some use of the pass needed, given the access before it. Two reads in
/// one layout, or two touches of a buffer that only read, add none.
pub proof fn every_barrier_is_needed(g: GraphModel, p: int, k: int)
    requires
        0 <= p < g.passes.len(),
        0 <= k < plan_of(g, p).barriers.len(),
    ensures
        exists|j: int|
            0 <= j < plan_uses(g.passes[p].uses).len() && #[trigger] use_barrier(
                before_use(g, p, j).1,
                g.resources,
                plan_uses(g.passes[p].uses)[j],
            ) == Some(plan_of(g, p).barriers[k]),
{
    let uses = plan_uses(g.passes[p].uses);
    let last = compile_upto(g, p).1;
    let n = uses.len() as int;
    lemma_plan_of(g, p);
    lemma_barriers_sound(uses, g.resources, last, n);
    let b = barriers_upto(uses, g.resources, last, n).0[k];
    assert(b == plan_of(g, p).barriers[k]);
    let j = choose|j: int|
        0 <= j < n && #[trigger] use_barrier(barriers_upto(uses, g.resources, last, j).1, g.resources, uses[j])
            == Some(b);
    assert(before_use(g, p, j).1 == barriers_upto(uses, g.resources, last, j).1);
}

/// Two reads of a resource in one layout need no barrier; a buffer read
/// after a read needs none either.
pub proof fn reads_in_one_layout_need_nothing(prev: Access, next: Access, is_texture: bool)
    requires
        !spec_writes(prev),
        !spec_writes(next),
        is_texture ==> spec_layout(prev) == spec_layout(next),
    ensures
        !needs_barrier(prev, next, is_texture),
{
}

/// Each way a pass touches an image has its own layout, except that storage
/// reads and writes share one: colour attachment, depth attachment, depth
/// read-only, sampling and storage are five different layouts, none of them
/// undefined. So a texture that goes between storage and sampling, either
/// way, gets a barrier even when both accesses only read.
pub proof fn image_accesses_have_their_own_layouts()
    ensures
        spec_layout(Access::StorageRead) == spec_layout(Access::StorageWrite),
        forall|a: Access, b: Access|
            (a is ColorWrite || a is DepthWrite || a is DepthRead || a is Sampled || a is StorageRead) && (
            b is ColorWrite || b is DepthWrite || b is DepthRead || b is Sampled || b is StorageRead) && a != b
                ==> #[trigger] spec_layout(a) != #[trigger] spec_layout(b),
        forall|a: Access|
            (a is ColorWrite || a is DepthWrite || a is DepthRead || a is Sampled || a is StorageRead || a is StorageWrite)
                ==> !(#[trigger] spec_layout(a) is Undefined),
        needs_barrier(Access::StorageRead, Access::Sampled, true),
        needs_barrier(Access::Sampled, Access::StorageRead, true),
        !needs_barrier(Access::Sampled, Access::Sampled, true),
{
}

// ---------------------------------------------------------------------------
// Declaration order.
// ---------------------------------------------------------------------------

/// Entries that name the same resource are the same entry: a pass may
/// declare a use or a load twice, but never two different ones for one
/// resource.
pub open spec fn consistent_resources<T>(s: Seq<(ResourceId, T)>) -> bool {
    forall|i: int, j: int|
        0 <= i < s.len() && 0 <= j < s.len() && (#[trigger] s[i]).0 == (#[trigger] s[j]).0 ==> s[i] == s[j]
}

/// Resources never decrease along `s`.
pub open spec fn ascending_resources<T>(s: Seq<(ResourceId, T)>) -> bool {
    forall|i: int, j: int| 0 <= i < j < s.len() ==> (#[trigger] s[i]).0.0 <= (#[trigger] s[j]).0.0
}

/// Sorting by resource keeps the entries and puts them in ascending order of
/// resource.
proof fn lemma_sorted_by_resource<T>(s: Seq<(ResourceId, T)>)
    requires
        s.len() <= usize::MAX,
    ensures
        sorted_by_resource(s).to_multiset() == s.to_multiset(),
        ascending_resources(sorted_by_resource(s)),
{
    broadcast use vstd::seq_lib::group_to_multiset_ensures;

    let keys = by_resource(s);
    let o = ranked(keys);
    crate::rank::lemma_rank_total();
    keys.lemma_sort_by_ensures(crate::rank::rank_order());
    let f = |k: RankKey| s[k.index as int];
    crate::rank::lemma_map_multiset(o, keys, f);
    assert(keys.map_values(f) =~= s);
    assert forall|j: int| 0 <= j < o.len() implies (#[trigger] o[j]).index < s.len() && o[j].prio == 0 && o[j].light
        == s[o[j].index as int].0.0 by {
        assert(o.to_multiset().count(o[j]) > 0);
        assert(keys.contains(o[j]));
        let t = choose|t: int| 0 <= t < keys.len() && keys[t] == o[j];
        assert(keys[t].index == t as usize);
    }
    let r = sorted_by_resource(s);
    assert forall|i: int, j: int| 0 <= i < j < r.len() implies (#[trigger] r[i]).0.0 <= (#[trigger] r[j]).0.0 by {
        assert(crate::rank::rank_order()(o[i], o[j]));
        assert(o[i].index < s.len() && o[j].index < s.len());
        assert(r[i] == s[o[i].index as int]);
        assert(r[j] == s[o[j].index as int]);
    }
}

/// Two sequences in ascending order of resource, holding the same entries as
/// often, where entries of one resource are equal, are the same sequence.
proof fn lemma_ascending_unique<T>(x: Seq<(ResourceId, T)>, y: Seq<(ResourceId, T)>)
    requires
        ascending_resources(x),
        ascending_resources(y),
        consistent_resources(x),
        x.to_multiset() == y.to_multiset(),
    ensures
        x == y,
    decreases x.len(),
{
    broadcast use vstd::seq_lib::group_to_multiset_ensures;

    assert(x.len() == x.to_multiset().len());
    assert(y.len() == y.to_multiset().len());
    if x.len() > 0 {
        assert(x.to_multiset().count(x[0]) > 0);
        assert(y.to_multiset().count(y[0]) > 0);
        assert(y.contains(x[0]));
        assert(x.contains(y[0]));
        let k = choose|k: int| 0 <= k < y.len() && y[k] == x[0];
        let m = choose|m: int| 0 <= m < x.len() && x[m] == y[0];
        if k > 0 {
            assert(y[0].0.0 <= y[k].0.0);
        }
        if m > 0 {
            assert(x[0].0.0 <= x[m].0.0);
        }
        assert(x[m].0 == x[0].0);
        assert(x[0] == y[0]);
        let xs = x.drop_first();
        let ys = y.drop_first();
        assert(xs =~= x.remove(0));
        assert(ys =~= y.remove(0));
        assert(xs.to_multiset() =~= ys.to_multiset());
        assert forall|i: int, j: int|
            0 <= i < xs.len() && 0 <= j < xs.len() && (#[trigger] xs[i]).0 == (#[trigger] xs[j]).0 implies xs[i]
            == xs[j] by {
            assert(x[i + 1] == xs[i] && x[j + 1] == xs[j]);
        }
        assert forall|i: int, j: int| 0 <= i < j < xs.len() implies (#[trigger] xs[i]).0.0 <= (#[trigger] xs[j]).0.0 by {
            assert(x[i + 1] == xs[i] && x[j + 1] == xs[j]);
        }
        assert forall|i: int, j: int| 0 <= i < j < ys.len() implies (#[trigger] ys[i]).0.0 <= (#[trigger] ys[j]).0.0 by {
            assert(y[i + 1] == ys[i] && y[j + 1] == ys[j]);
        }
        lemma_ascending_unique(xs, ys);
        assert forall|i: int| 0 <= i < x.len() implies x[i] == y[i] by {
            if i > 0 {
                assert(xs[i - 1] == x[i]);
                assert(ys[i - 1] == y[i]);
            }
        }
        assert(x =~= y);
    } else {
        assert(y.len() == 0);
        assert(x =~= y);
    }
}

/// The order in which a pass declares its uses (or its loads) does not change
/// its plan: where entries for one resource agree, any reordering sorts to
/// the same sequence.
pub proof fn the_order_of_declaration_does_not_matter<T>(a: Seq<(ResourceId, T)>, b: Seq<(ResourceId, T)>)
    requires
        consistent_resources(a),
        a.len() <= usize::MAX,
        a.to_multiset() == b.to_multiset(),
    ensures
        sorted_by_resource(a) == sorted_by_resource(b),
{
    broadcast use vstd::seq_lib::group_to_multiset_ensures;

    assert(a.len() == a.to_multiset().len());
    assert(b.len() == b.to_multiset().len());
    lemma_sorted_by_resource(a);
    lemma_sorted_by_resource(b);
    let ra = sorted_by_resource(a);
    let rb = sorted_by_resource(b);
    assert forall|i: int, j: int|
        0 <= i < ra.len() && 0 <= j < ra.len() && (#[trigger] ra[i]).0 == (#[trigger] ra[j]).0 implies ra[i]
        == ra[j] by {
        assert(ra.to_multiset().count(ra[i]) > 0);
        assert(ra.to_multiset().count(ra[j]) > 0);
        assert(a.contains(ra[i]));
        assert(a.contains(ra[j]));
        let p = choose|p: int| 0 <= p < a.len() && a[p] == ra[i];
        let q = choose|q: int| 0 <= q < a.len() && a[q] == ra[j];
        assert(a[p].0 == a[q].0);
    }
    lemma_ascending_unique(ra, rb);
}

/// Two graphs whose passes declare the same uses and loads, perhaps in
/// another order and perhaps more than once, compile to the same plans, as
/// long as no pass gives one resource two different uses or two different
/// loads.
pub proof fn the_plan_does_not_depend_on_declaration_order(g1: GraphModel, g2: GraphModel, n: int)
    requires
        g1.resources == g2.resources,
        g1.passes.len() == g2.passes.len(),
        0 <= n <= g1.passes.len(),
        forall|p: int|
            0 <= p < g1.passes.len() ==> {
                &&& (#[trigger] g1.passes[p]).uses.len() <= usize::MAX
                &&& g1.passes[p].loads.len() <= usize::MAX
                &&& consistent_resources(g1.passes[p].uses)
                &&& consistent_resources(g1.passes[p].loads)
                &&& g1.passes[p].uses.to_multiset() == g2.passes[p].uses.to_multiset()
                &&& g1.passes[p].loads.to_multiset() == g2.passes[p].loads.to_multiset()
            },
    ensures
        compile_upto(g1, n) == compile_upto(g2, n),
    decreases n,
{
    if n > 0 {
        the_plan_does_not_depend_on_declaration_order(g1, g2, n - 1);
        let p = n - 1;
        assert(g1.passes[p].uses.len() <= usize::MAX);
        the_order_of_declaration_does_not_matter(g1.passes[p].uses, g2.passes[p].uses);
        the_order_of_declaration_does_not_matter(g1.passes[p].loads, g2.passes[p].loads);
    }
}

} // verus!
