//! Recursive-descent parsing with scope resolution.
//!
//! The parser consumes the token stream and simultaneously resolves every
//! name: frame 0 of the environment holds the globals, one frame per open
//! `lambda` holds its locals.  A lookup walks frames from the innermost
//! outward; a hit in an intermediate frame marks the binding as captured
//! and records it in the running free-variable set of the current lambda.
//! Each `lambda` form is lifted into a [`Lambda`] record and referred to
//! by its index in emission order.

use vstd::prelude::*;
use vstd::string::StrSliceExecFns;
use vstd::string::StringExecFns;
use crate::lexer::Token;
use crate::lexer::SpecToken;
use crate::lexer::view_tokens;
use crate::decimal::dec_str;
use crate::decimal::dec_string;

verus! {

/// Upper bound on the token count, forced by the machine: frame-slot byte
/// offsets `8 * (slot + 1)` and the emitter's `8 * (free + local)` sums
/// must fit in `usize`.
pub open spec fn max_len() -> nat {
    usize::MAX as nat / 32
}

/// Executable counterpart of [`max_len`].
pub fn max_token_count() -> (r: usize)
    ensures
        r as nat == max_len(),
{
    usize::MAX / 32
}

/// Character-wise string equality.
fn str_eq(a: &str, b: &str) -> (r: bool)
    ensures
        r == (a@ == b@),
{
    let na = a.unicode_len();
    let nb = b.unicode_len();
    if na != nb {
        return false;
    }
    let mut i: usize = 0;
    while i < na
        invariant
            na == a@.len(),
            na == b@.len(),
            i <= na,
            forall|k: int| 0 <= k < i ==> a@[k] == b@[k],
        decreases na - i,
    {
        if a.get_char(i) != b.get_char(i) {
            return false;
        }
        i = i + 1;
    }
    proof {
        assert(a@ =~= b@);
    }
    true
}

/// A resolved variable binding.  A local carries its byte offset from the
/// frame base and the flag that records whether some inner lambda refers
/// to it across a frame boundary.
#[derive(Debug)]
pub enum Var {
    Global(String),
    Local(String, usize, bool),
}

/// The mathematical image of a [`Var`].
pub enum SpecVar {
    Global(Seq<char>),
    Local(Seq<char>, usize, bool),
}

impl View for Var {
    type V = SpecVar;

    open spec fn view(&self) -> SpecVar {
        match self {
            Var::Global(n) => SpecVar::Global(n@),
            Var::Local(n, off, f) => SpecVar::Local(n@, *off, *f),
        }
    }
}

/// The name a binding declares.
pub open spec fn spec_var_name(v: SpecVar) -> Seq<char> {
    match v {
        SpecVar::Global(n) => n,
        SpecVar::Local(n, _, _) => n,
    }
}

/// The frame-slot byte offset of a local binding.
pub open spec fn spec_var_offset(v: SpecVar) -> usize {
    match v {
        SpecVar::Global(_) => 0,
        SpecVar::Local(_, off, _) => off,
    }
}

/// Whether a binding is a local marked captured.
pub open spec fn spec_var_captured(v: SpecVar) -> bool {
    match v {
        SpecVar::Global(_) => false,
        SpecVar::Local(_, _, f) => f,
    }
}

/// A local binding with the captured flag raised when `c` holds.
pub open spec fn mark_var(v: SpecVar, c: bool) -> SpecVar {
    match v {
        SpecVar::Global(n) => SpecVar::Global(n),
        SpecVar::Local(n, off, f) => SpecVar::Local(n, off, f || c),
    }
}

/// Every binding in the arena keeps a bounded, 8-aligned offset.
pub open spec fn var_wf(v: SpecVar) -> bool {
    match v {
        SpecVar::Global(_) => true,
        SpecVar::Local(_, off, _) => 8 <= off && off as int <= 8 * max_len() && off as int % 8
            == 0,
    }
}

/// An ordered free-variable set: pairs of (slot byte offset in the owning
/// frame, name), iterated in insertion order, unique by name.
#[derive(Debug)]
pub struct FVs {
    list: Vec<(usize, String)>,
}

impl View for FVs {
    type V = Seq<(usize, Seq<char>)>;

    closed spec fn view(&self) -> Seq<(usize, Seq<char>)> {
        Seq::new(self.list@.len(), |i: int| (self.list@[i].0, self.list@[i].1@))
    }
}

/// Position of `name` in the set, scanning from position `j`; -1 when absent.
pub open spec fn fv_index_of_from(v: Seq<(usize, Seq<char>)>, name: Seq<char>, j: int) -> int
    decreases v.len() - j,
{
    if j < 0 || j >= v.len() {
        -1
    } else if v[j].1 == name {
        j
    } else {
        fv_index_of_from(v, name, j + 1)
    }
}

/// Position of the entry for `name`, or -1 when absent.
pub open spec fn fv_index_of(v: Seq<(usize, Seq<char>)>, name: Seq<char>) -> int {
    fv_index_of_from(v, name, 0)
}

/// Whether the set holds an entry for `name`.
pub open spec fn fv_contains_name(v: Seq<(usize, Seq<char>)>, name: Seq<char>) -> bool {
    fv_index_of(v, name) >= 0
}

/// A single free-variable entry keeps a bounded local offset.
pub open spec fn fv_entry_wf(e: (usize, Seq<char>)) -> bool {
    8 <= e.0 && e.0 as int <= 8 * max_len() && e.0 as int % 8 == 0
}

/// Well-formed free-variable set: bounded size, bounded offsets, names
/// pairwise distinct.
pub open spec fn fvs_wf(v: Seq<(usize, Seq<char>)>) -> bool {
    &&& v.len() <= max_len()
    &&& forall|i: int| 0 <= i < v.len() ==> fv_entry_wf(#[trigger] v[i])
    &&& forall|i: int, j: int| 0 <= i < j < v.len() ==> (#[trigger] v[i]).1 != (#[trigger] v[j]).1
}

proof fn lemma_fv_index_of_from_found(v: Seq<(usize, Seq<char>)>, name: Seq<char>, j: int)
    requires
        0 <= j <= v.len(),
        forall|k: int| 0 <= k < j ==> (#[trigger] v[k]).1 != name,
    ensures
        fv_index_of(v, name) == fv_index_of_from(v, name, j),
    decreases j,
{
    if j > 0 {
        lemma_fv_index_of_from_found(v, name, j - 1);
        assert(fv_index_of_from(v, name, j - 1) == fv_index_of_from(v, name, j));
    }
}

impl FVs {
    /// The empty set.
    pub fn new() -> (r: Self)
        ensures
            r@ =~= Seq::<(usize, Seq<char>)>::empty(),
    {
        FVs { list: Vec::new() }
    }

    /// Number of entries.
    pub fn len(&self) -> (r: usize)
        ensures
            r == self@.len(),
    {
        self.list.len()
    }

    /// The entries, in iteration (insertion) order.
    pub fn iter(&self) -> (r: &Vec<(usize, String)>)
        ensures
            r@.len() == self@.len(),
            forall|i: int|
                0 <= i < self@.len() ==> (#[trigger] r@[i]).0 == self@[i].0 && r@[i].1@
                    == self@[i].1,
    {
        &self.list
    }

    /// A fresh set holding the same entries.
    pub fn duplicate(&self) -> (r: Self)
        ensures
            r@ =~= self@,
    {
        let mut list: Vec<(usize, String)> = Vec::new();
        let n = self.list.len();
        let mut i: usize = 0;
        while i < n
            invariant
                n == self.list@.len(),
                i <= n,
                list@.len() == i,
                forall|k: int|
                    0 <= k < i ==> (#[trigger] list@[k]).0 == self.list@[k].0 && list@[k].1@
                        == self.list@[k].1@,
            decreases n - i,
        {
            let off = self.list[i].0;
            let name = self.list[i].1.clone();
            list.push((off, name));
            i = i + 1;
        }
        FVs { list }
    }

    /// Appends the entry unless its name is already present.
    fn insert(&mut self, fv: (usize, String))
        requires
            old(self)@.len() < max_len(),
        ensures
            fv_contains_name(old(self)@, fv.1@) ==> final(self)@ =~= old(self)@,
            !fv_contains_name(old(self)@, fv.1@) ==> final(self)@ =~= old(self)@.push(
                (fv.0, fv.1@),
            ),
    {
        if !self.contains(fv.1.as_str()) {
            self.list.push(fv);
            proof {
                assert(self@ =~= old(self)@.push((fv.0, fv.1@)));
            }
        }
    }

    /// Byte offset of `name` within a closure record: 8 bytes per entry,
    /// in iteration order, starting at 8.
    pub fn offset(&self, name: &str) -> (r: usize)
        requires
            fv_contains_name(self@, name@),
            self@.len() <= max_len(),
        ensures
            r as int == 8 * (fv_index_of(self@, name@) + 1),
    {
        let n = self.list.len();
        let mut i: usize = 0;
        while i < n
            invariant
                n == self@.len(),
                n <= max_len(),
                i <= n,
                fv_contains_name(self@, name@),
                forall|k: int| 0 <= k < i ==> (#[trigger] self@[k]).1 != name@,
            decreases n - i,
        {
            if str_eq(self.list[i].1.as_str(), name) {
                proof {
                    lemma_fv_index_of_from_found(self@, name@, i as int);
                }
                return 8 * (i + 1);
            }
            i = i + 1;
        }
        proof {
            lemma_fv_index_of_from_found(self@, name@, n as int);
        }
        // unreachable: the entry is present by precondition
        assert(false);
        0
    }

    /// Whether `name` is in the set.
    pub fn contains(&self, name: &str) -> (r: bool)
        ensures
            r == fv_contains_name(self@, name@),
    {
        let n = self.list.len();
        let mut i: usize = 0;
        while i < n
            invariant
                n == self@.len(),
                i <= n,
                forall|k: int| 0 <= k < i ==> (#[trigger] self@[k]).1 != name@,
            decreases n - i,
        {
            if str_eq(self.list[i].1.as_str(), name) {
                proof {
                    lemma_fv_index_of_from_found(self@, name@, i as int);
                }
                return true;
            }
            i = i + 1;
        }
        proof {
            lemma_fv_index_of_from_found(self@, name@, n as int);
        }
        false
    }
}

/// A stack of scope frames over an arena of bindings.  Frame 0 holds the
/// globals; each further frame belongs to one open `lambda`.  The arena
/// assigns every binding a stable index; frames and IR nodes refer to
/// bindings by index.
#[derive(Debug)]
pub struct Env {
    pub vec: Vec<Vec<(String, usize)>>,
    pub vars: Vec<Var>,
}

/// The mathematical image of an [`Env`].
pub struct SpecEnv {
    pub frames: Seq<Seq<(Seq<char>, usize)>>,
    pub vars: Seq<SpecVar>,
}

/// The image of one frame.
pub open spec fn view_frame(f: Seq<(String, usize)>) -> Seq<(Seq<char>, usize)> {
    Seq::new(f.len(), |j: int| (f[j].0@, f[j].1))
}

impl View for Env {
    type V = SpecEnv;

    open spec fn view(&self) -> SpecEnv {
        SpecEnv {
            frames: Seq::new(self.vec@.len(), |i: int| view_frame(self.vec@[i]@)),
            vars: Seq::new(self.vars@.len(), |k: int| self.vars@[k]@),
        }
    }
}

/// Position of the first entry for `name` in a frame, scanning from `j`;
/// -1 when absent.
pub open spec fn frame_index_of_from(f: Seq<(Seq<char>, usize)>, name: Seq<char>, j: int) -> int
    decreases f.len() - j,
{
    if j < 0 || j >= f.len() {
        -1
    } else if f[j].0 == name {
        j
    } else {
        frame_index_of_from(f, name, j + 1)
    }
}

/// Position of the first entry for `name` in a frame, or -1.
pub open spec fn frame_index_of(f: Seq<(Seq<char>, usize)>, name: Seq<char>) -> int {
    frame_index_of_from(f, name, 0)
}

/// The frame and entry of the binding a lookup resolves to: frames are
/// searched from the innermost (index `i`) outward, each frame from its
/// front; the first match wins.
pub open spec fn env_lookup_from(
    frames: Seq<Seq<(Seq<char>, usize)>>,
    name: Seq<char>,
    i: int,
) -> Option<(int, int)>
    decreases i + 1,
{
    if i < 0 || i >= frames.len() {
        None
    } else if frame_index_of(frames[i], name) >= 0 {
        Some((i, frame_index_of(frames[i], name)))
    } else {
        env_lookup_from(frames, name, i - 1)
    }
}

/// The binding a lookup in the whole environment resolves to.
pub open spec fn env_lookup(env: SpecEnv, name: Seq<char>) -> Option<(int, int)> {
    env_lookup_from(env.frames, name, env.frames.len() - 1)
}

/// The first captured local for `name` in a frame, scanning from `j`:
/// its slot byte offset.
pub open spec fn frame_fv_find_from(
    vars: Seq<SpecVar>,
    f: Seq<(Seq<char>, usize)>,
    name: Seq<char>,
    j: int,
) -> Option<usize>
    decreases f.len() - j,
{
    if j < 0 || j >= f.len() {
        None
    } else if f[j].0 == name && f[j].1 < vars.len() && spec_var_captured(vars[f[j].1 as int]) {
        Some(spec_var_offset(vars[f[j].1 as int]))
    } else {
        frame_fv_find_from(vars, f, name, j + 1)
    }
}

/// The slot offset of the first captured local for `name`, searching
/// frames from index `i` outward.
pub open spec fn env_find_fv_from(env: SpecEnv, name: Seq<char>, i: int) -> Option<usize>
    decreases i + 1,
{
    if i < 0 || i >= env.frames.len() {
        None
    } else {
        match frame_fv_find_from(env.vars, env.frames[i], name, 0) {
            Some(off) => Some(off),
            None => env_find_fv_from(env, name, i - 1),
        }
    }
}

/// The slot offset of the captured local a free-variable lookup finds.
pub open spec fn env_find_fv(env: SpecEnv, name: Seq<char>) -> Option<usize> {
    env_find_fv_from(env, name, env.frames.len() - 1)
}

/// Whether a reference to `name` crosses a frame boundary: its binding
/// lives in a frame that is neither the global frame nor the innermost.
pub open spec fn env_is_free(env: SpecEnv, name: Seq<char>) -> bool {
    match env_lookup(env, name) {
        Some(hit) => 0 < hit.0 && hit.0 + 1 < env.frames.len(),
        None => false,
    }
}

/// One frame entry is well formed: its index points into the arena, the
/// binding there carries the entry's name, globals sit in frame 0 and
/// locals in later frames with offset `8 * (position + 1)`.
pub open spec fn frame_entry_wf(env: SpecEnv, i: int, j: int) -> bool {
    let entry = env.frames[i][j];
    &&& entry.1 < env.vars.len()
    &&& spec_var_name(env.vars[entry.1 as int]) == entry.0
    &&& if i == 0 {
        env.vars[entry.1 as int] is Global
    } else {
        env.vars[entry.1 as int] is Local && spec_var_offset(env.vars[entry.1 as int]) as int == 8
            * (j + 1)
    }
}

/// A well-formed environment: at least the global frame, every frame
/// entry well formed, every arena binding bounded, global names unique.
pub open spec fn env_wf(env: SpecEnv) -> bool {
    &&& env.frames.len() >= 1
    &&& forall|i: int, j: int|
        0 <= i < env.frames.len() && 0 <= j < env.frames[i].len() ==> #[trigger] frame_entry_wf(
            env,
            i,
            j,
        )
    &&& forall|k: int| 0 <= k < env.vars.len() ==> var_wf(#[trigger] env.vars[k])
    &&& forall|j1: int, j2: int|
        0 <= j1 < j2 < env.frames[0].len() ==> (#[trigger] env.frames[0][j1]).0 != (
        #[trigger] env.frames[0][j2]).0
}

proof fn lemma_frame_index_of_from(f: Seq<(Seq<char>, usize)>, name: Seq<char>, j: int)
    requires
        0 <= j <= f.len(),
        forall|k: int| 0 <= k < j ==> (#[trigger] f[k]).0 != name,
    ensures
        frame_index_of(f, name) == frame_index_of_from(f, name, j),
    decreases j,
{
    if j > 0 {
        lemma_frame_index_of_from(f, name, j - 1);
    }
}

proof fn lemma_frame_fv_find_from(
    vars: Seq<SpecVar>,
    f: Seq<(Seq<char>, usize)>,
    name: Seq<char>,
    j: int,
)
    requires
        0 <= j <= f.len(),
        forall|k: int|
            0 <= k < j ==> !((#[trigger] f[k]).0 == name && f[k].1 < vars.len()
                && spec_var_captured(vars[f[k].1 as int])),
    ensures
        frame_fv_find_from(vars, f, name, 0) == frame_fv_find_from(vars, f, name, j),
    decreases j,
{
    if j > 0 {
        lemma_frame_fv_find_from(vars, f, name, j - 1);
    }
}

impl Env {
    /// An environment holding only the empty global frame.
    fn new() -> (r: Self)
        ensures
            r@.frames =~~= seq![Seq::<(Seq<char>, usize)>::empty()],
            r@.vars =~= Seq::<SpecVar>::empty(),
    {
        let mut vec: Vec<Vec<(String, usize)>> = Vec::new();
        vec.push(Vec::new());
        Env { vec, vars: Vec::new() }
    }

    /// Number of bindings in the innermost frame.
    fn local_num(&self) -> (r: usize)
        requires
            self@.frames.len() >= 1,
        ensures
            r == self@.frames.last().len(),
    {
        self.vec[self.vec.len() - 1].len()
    }

    /// The global frame: every (name, arena index) pair of frame 0.
    pub fn globals(&self) -> (r: &Vec<(String, usize)>)
        requires
            self@.frames.len() >= 1,
        ensures
            view_frame(r@) == self@.frames[0],
    {
        &self.vec[0]
    }

    /// Opens a fresh innermost frame.
    fn push_frame(&mut self)
        ensures
            final(self)@.frames =~~= old(self)@.frames.push(Seq::empty()),
            final(self)@.vars =~= old(self)@.vars,
    {
        self.vec.push(Vec::new());
    }

    /// Installs a global binding for `name`, reusing the existing binding
    /// when the name is already defined; returns its arena index.
    fn push_global(&mut self, name: String) -> (idx: usize)
        requires
            old(self)@.frames.len() >= 1,
        ensures
            ({
                let f0 = old(self)@.frames[0];
                if frame_index_of(f0, name@) >= 0 {
                    &&& *final(self) == *old(self)
                    &&& idx == f0[frame_index_of(f0, name@)].1
                } else {
                    &&& final(self)@.vars =~= old(self)@.vars.push(SpecVar::Global(name@))
                    &&& final(self)@.frames =~~= old(self)@.frames.update(
                        0,
                        f0.push((name@, old(self)@.vars.len() as usize)),
                    )
                    &&& idx == old(self)@.vars.len()
                }
            }),
    {
        let m = self.vec[0].len();
        let mut j: usize = 0;
        while j < m
            invariant
                self@.frames.len() >= 1,
                m == self@.frames[0].len(),
                j <= m,
                forall|k: int| 0 <= k < j ==> (#[trigger] self@.frames[0][k]).0 != name@,
        decreases m - j,
        {
            if str_eq(self.vec[0][j].0.as_str(), name.as_str()) {
                proof {
                    lemma_frame_index_of_from(self@.frames[0], name@, j as int);
                }
                return self.vec[0][j].1;
            }
            j = j + 1;
        }
        proof {
            lemma_frame_index_of_from(self@.frames[0], name@, m as int);
        }
        let idx = self.vars.len();
        self.vars.push(Var::Global(name.clone()));
        self.vec[0].push((name, idx));
        proof {
            assert(self@.vars =~= old(self)@.vars.push(SpecVar::Global(name@)));
            assert(self@.frames =~~= old(self)@.frames.update(
                0,
                old(self)@.frames[0].push((name@, old(self)@.vars.len() as usize)),
            ));
        }
        idx
    }

    /// Installs a local binding in the innermost frame at the next slot
    /// offset; returns its arena index.
    fn push_local(&mut self, name: String) -> (idx: usize)
        requires
            old(self)@.frames.len() >= 1,
            old(self)@.frames.last().len() + 1 <= max_len(),
        ensures
            idx == old(self)@.vars.len(),
            final(self)@.vars =~= old(self)@.vars.push(
                SpecVar::Local(name@, (8 * (old(self)@.frames.last().len() + 1)) as usize, false),
            ),
            final(self)@.frames =~~= old(self)@.frames.update(
                old(self)@.frames.len() - 1,
                old(self)@.frames.last().push((name@, old(self)@.vars.len() as usize)),
            ),
    {
        let fi = self.vec.len() - 1;
        let offset = (self.vec[fi].len() + 1) * 8;
        let idx = self.vars.len();
        self.vars.push(Var::Local(name.clone(), offset, false));
        self.vec[fi].push((name, idx));
        proof {
            assert(self@.vars =~= old(self)@.vars.push(
                SpecVar::Local(name@, (8 * (old(self)@.frames.last().len() + 1)) as usize, false),
            ));
            assert(self@.frames =~~= old(self)@.frames.update(
                old(self)@.frames.len() - 1,
                old(self)@.frames.last().push((name@, old(self)@.vars.len() as usize)),
            ));
        }
        idx
    }

    /// Closes the innermost frame.
    fn pop_frame(&mut self)
        requires
            old(self)@.frames.len() >= 1,
        ensures
            final(self)@.frames =~~= old(self)@.frames.drop_last(),
            final(self)@.vars =~= old(self)@.vars,
    {
        self.vec.pop();
    }

    /// The frame and entry a lookup of `name` resolves to.
    fn locate(&self, name: &str) -> (r: Option<(usize, usize)>)
        ensures
            ({
                let l = env_lookup(self@, name@);
                match r {
                    Option::Some(p) => l == Option::Some((p.0 as int, p.1 as int)) && p.0
                        < self@.frames.len() && p.1 < self@.frames[p.0 as int].len(),
                    Option::None => l is None,
                }
            }),
    {
        let mut i: usize = self.vec.len();
        while i > 0
            invariant
                i <= self@.frames.len(),
                env_lookup(self@, name@) == env_lookup_from(self@.frames, name@, i as int - 1),
            decreases i,
        {
            let fi = i - 1;
            let m = self.vec[fi].len();
            let mut j: usize = 0;
            while j < m
                invariant
                    fi < self@.frames.len(),
                    m == self@.frames[fi as int].len(),
                    j <= m,
                    env_lookup(self@, name@) == env_lookup_from(self@.frames, name@, fi as int),
                    forall|k: int| 0 <= k < j ==> (#[trigger] self@.frames[fi as int][k]).0 != name@,
                decreases m - j,
            {
                if str_eq(self.vec[fi][j].0.as_str(), name) {
                    proof {
                        assert(self@.frames[fi as int][j as int].0 == name@);
                        lemma_frame_index_of_from(self@.frames[fi as int], name@, j as int);
                        assert(frame_index_of_from(self@.frames[fi as int], name@, j as int)
                            == j as int);
                        assert(env_lookup_from(self@.frames, name@, fi as int) == Some(
                            (fi as int, j as int),
                        ));
                    }
                    return Some((fi, j));
                }
                j = j + 1;
            }
            proof {
                lemma_frame_index_of_from(self@.frames[fi as int], name@, m as int);
            }
            i = fi;
        }
        None
    }

    /// Resolves `name` to its arena index and, when the hit crosses a
    /// frame boundary, marks the binding captured.
    fn find(&mut self, name: &str) -> (r: Option<usize>)
        requires
            env_wf(old(self)@),
        ensures
            env_wf(final(self)@),
            final(self)@.frames =~~= old(self)@.frames,
            ({
                let l = env_lookup(old(self)@, name@);
                match l {
                    Option::None => r is None && final(self)@.vars =~= old(self)@.vars,
                    Option::Some(hit) => ({
                        let idx = old(self)@.frames[hit.0][hit.1].1;
                        &&& r == Option::Some(idx)
                        &&& final(self)@.vars =~= old(self)@.vars.update(
                            idx as int,
                            mark_var(
                                old(self)@.vars[idx as int],
                                0 < hit.0 && hit.0 + 1 < old(self)@.frames.len(),
                            ),
                        )
                    }),
                }
            }),
    {
        match self.locate(name) {
            None => None,
            Some((fi, ej)) => {
                proof {
                    assert(fi < self@.frames.len());
                    assert(frame_entry_wf(self@, fi as int, ej as int));
                }
                let idx = self.vec[fi][ej].1;
                let captured = 0 < fi && fi < self.vec.len() - 1;
                if captured {
                    let newvar = match &self.vars[idx] {
                        Var::Local(n, o, _) => Var::Local(n.clone(), *o, true),
                        Var::Global(n) => Var::Global(n.clone()),
                    };
                    self.vars[idx] = newvar;
                    proof {
                        assert(self@.vars =~= old(self)@.vars.update(
                            idx as int,
                            mark_var(old(self)@.vars[idx as int], true),
                        ));
                        lemma_env_wf_after_mark(old(self)@, self@, idx as int);
                    }
                } else {
                    proof {
                        assert(mark_var(old(self)@.vars[idx as int], false) == old(
                            self,
                        )@.vars[idx as int]);
                        assert(self@.vars =~= old(self)@.vars.update(
                            idx as int,
                            mark_var(old(self)@.vars[idx as int], false),
                        ));
                    }
                }
                Some(idx)
            },
        }
    }

    /// The slot offset of the captured local `name` resolves to, paired
    /// with the name, for recording in a free-variable set.
    fn find_fv(&self, name: &str) -> (r: Option<(usize, String)>)
        ensures
            ({
                let l = env_find_fv(self@, name@);
                match r {
                    Option::Some(p) => l == Option::Some(p.0) && p.1@ == name@,
                    Option::None => l is None,
                }
            }),
    {
        let mut i: usize = self.vec.len();
        while i > 0
            invariant
                i <= self@.frames.len(),
                env_find_fv(self@, name@) == env_find_fv_from(self@, name@, i as int - 1),
            decreases i,
        {
            let fi = i - 1;
            let m = self.vec[fi].len();
            let mut j: usize = 0;
            while j < m
                invariant
                    fi < self@.frames.len(),
                    m == self@.frames[fi as int].len(),
                    j <= m,
                    env_find_fv(self@, name@) == env_find_fv_from(self@, name@, fi as int),
                    forall|k: int|
                        0 <= k < j ==> !((#[trigger] self@.frames[fi as int][k]).0 == name@
                            && self@.frames[fi as int][k].1 < self@.vars.len()
                            && spec_var_captured(
                            self@.vars[self@.frames[fi as int][k].1 as int],
                        )),
                decreases m - j,
            {
                if str_eq(self.vec[fi][j].0.as_str(), name) {
                    let idx = self.vec[fi][j].1;
                    if idx < self.vars.len() {
                        let hit = match &self.vars[idx] {
                            Var::Local(_, o, f) => if *f {
                                Some(*o)
                            } else {
                                None
                            },
                            Var::Global(_) => None,
                        };
                        if let Some(off) = hit {
                            proof {
                                assert(self@.frames[fi as int][j as int].0 == name@);
                                assert(self@.frames[fi as int][j as int].1 == idx);
                                assert(spec_var_captured(self@.vars[idx as int]));
                                assert(frame_fv_find_from(
                                    self@.vars,
                                    self@.frames[fi as int],
                                    name@,
                                    j as int,
                                ) == Some(spec_var_offset(self@.vars[idx as int])));
                                lemma_frame_fv_find_from(
                                    self@.vars,
                                    self@.frames[fi as int],
                                    name@,
                                    j as int,
                                );
                                assert(env_find_fv_from(self@, name@, fi as int) == Some(
                                    spec_var_offset(self@.vars[idx as int]),
                                ));
                            }
                            return Some((off, name.to_owned()));
                        }
                    }
                }
                j = j + 1;
            }
            proof {
                lemma_frame_fv_find_from(self@.vars, self@.frames[fi as int], name@, m as int);
            }
            i = fi;
        }
        None
    }

    /// Whether `name` resolves across a frame boundary.
    fn is_free(&self, name: &str) -> (r: bool)
        ensures
            r == env_is_free(self@, name@),
    {
        match self.locate(name) {
            Some(p) => {
                proof {
                    assert(p.0 < self@.frames.len());
                }
                0 < p.0 && p.0 < self.vec.len() - 1
            },
            None => false,
        }
    }
}

/// Expression IR.  `Var` refers to a binding by its arena index; `Proc`
/// names a lifted lambda (or primitive routine) together with the
/// free-variable set captured at the use site.
#[derive(Debug)]
pub enum Expr {
    Var(usize),
    Bool(bool),
    Int(i32),
    Proc(String, FVs),
    Call { proc: Box<Expr>, params: Vec<Expr> },
    If { test: Box<Expr>, conseq: Box<Expr>, alter: Box<Expr> },
}

/// The mathematical image of an [`Expr`].
pub enum SpecExpr {
    Var(usize),
    Bool(bool),
    Int(i32),
    Proc(Seq<char>, Seq<(usize, Seq<char>)>),
    Call { proc: Box<SpecExpr>, params: Seq<SpecExpr> },
    If { test: Box<SpecExpr>, conseq: Box<SpecExpr>, alter: Box<SpecExpr> },
}

/// The image of an expression.
pub open spec fn view_expr(e: Expr) -> SpecExpr
    decreases e,
{
    match e {
        Expr::Var(i) => SpecExpr::Var(i),
        Expr::Bool(b) => SpecExpr::Bool(b),
        Expr::Int(n) => SpecExpr::Int(n),
        Expr::Proc(l, f) => SpecExpr::Proc(l@, f@),
        Expr::Call { proc, params } => SpecExpr::Call {
            proc: Box::new(view_expr(*proc)),
            params: view_exprs(params@),
        },
        Expr::If { test, conseq, alter } => SpecExpr::If {
            test: Box::new(view_expr(*test)),
            conseq: Box::new(view_expr(*conseq)),
            alter: Box::new(view_expr(*alter)),
        },
    }
}

/// The images of a sequence of expressions.
pub open spec fn view_exprs(s: Seq<Expr>) -> Seq<SpecExpr>
    decreases s,
{
    if s.len() == 0 {
        Seq::empty()
    } else {
        seq![view_expr(s[0])] + view_exprs(s.drop_first())
    }
}

impl View for Expr {
    type V = SpecExpr;

    open spec fn view(&self) -> SpecExpr {
        view_expr(*self)
    }
}

/// Pointwise description of [`view_exprs`].
pub proof fn lemma_view_exprs(s: Seq<Expr>)
    ensures
        view_exprs(s).len() == s.len(),
        forall|i: int| 0 <= i < s.len() ==> view_exprs(s)[i] == view_expr(#[trigger] s[i]),
    decreases s.len(),
{
    if s.len() > 0 {
        lemma_view_exprs(s.drop_first());
        assert(view_exprs(s) == seq![view_expr(s[0])] + view_exprs(s.drop_first()));
        assert forall|i: int| 0 <= i < s.len() implies view_exprs(s)[i] == view_expr(
            #[trigger] s[i],
        ) by {
            if i > 0 {
                assert(view_exprs(s)[i] == view_exprs(s.drop_first())[i - 1]);
                assert(s.drop_first()[i - 1] == s[i]);
            }
        }
    }
}

/// A definition: installs the value of `expr` into the binding `var`
/// refers to.
#[derive(Debug)]
pub struct Defn {
    pub var: usize,
    pub expr: Expr,
}

/// The mathematical image of a [`Defn`].
pub struct SpecDefn {
    pub var: usize,
    pub expr: SpecExpr,
}

impl View for Defn {
    type V = SpecDefn;

    open spec fn view(&self) -> SpecDefn {
        SpecDefn { var: self.var, expr: view_expr(self.expr) }
    }
}

/// A body or top-level form: a definition or a bare expression.
#[derive(Debug)]
pub enum Node {
    Defn(Defn),
    Expr(Expr),
}

/// The mathematical image of a [`Node`].
pub enum SpecNode {
    Defn(SpecDefn),
    Expr(SpecExpr),
}

/// The image of a node.
pub open spec fn view_node(n: Node) -> SpecNode {
    match n {
        Node::Defn(d) => SpecNode::Defn(SpecDefn { var: d.var, expr: view_expr(d.expr) }),
        Node::Expr(e) => SpecNode::Expr(view_expr(e)),
    }
}

/// The images of a sequence of nodes.
pub open spec fn view_nodes(s: Seq<Node>) -> Seq<SpecNode> {
    Seq::new(s.len(), |i: int| view_node(s[i]))
}

impl View for Node {
    type V = SpecNode;

    open spec fn view(&self) -> SpecNode {
        view_node(*self)
    }
}

/// A lifted lambda: arity, total local slots, the ordered free-variable
/// set captured from the enclosing scopes, and the body.
#[derive(Debug)]
pub struct Lambda {
    pub free_vars: FVs,
    pub free_num: usize,
    pub args_num: usize,
    pub local_num: usize,
    pub body: Vec<Node>,
}

/// The mathematical image of a [`Lambda`].
pub struct SpecLambda {
    pub free_vars: Seq<(usize, Seq<char>)>,
    pub free_num: usize,
    pub args_num: usize,
    pub local_num: usize,
    pub body: Seq<SpecNode>,
}

impl View for Lambda {
    type V = SpecLambda;

    open spec fn view(&self) -> SpecLambda {
        SpecLambda {
            free_vars: self.free_vars@,
            free_num: self.free_num,
            args_num: self.args_num,
            local_num: self.local_num,
            body: view_nodes(self.body@),
        }
    }
}

/// Well-formed expression over an arena of `nvars` bindings: every
/// variable reference resolves, every free-variable set is well formed,
/// argument lists stay bounded.
pub open spec fn expr_wf(e: SpecExpr, nvars: nat) -> bool
    decreases e,
{
    match e {
        SpecExpr::Var(i) => i < nvars,
        SpecExpr::Bool(_) => true,
        SpecExpr::Int(_) => true,
        SpecExpr::Proc(_, fvs) => fvs_wf(fvs),
        SpecExpr::Call { proc, params } => expr_wf(*proc, nvars) && exprs_wf(params, nvars)
            && params.len() <= max_len(),
        SpecExpr::If { test, conseq, alter } => expr_wf(*test, nvars) && expr_wf(*conseq, nvars)
            && expr_wf(*alter, nvars),
    }
}

/// Well-formedness of each expression in a sequence.
pub open spec fn exprs_wf(s: Seq<SpecExpr>, nvars: nat) -> bool
    decreases s,
{
    if s.len() == 0 {
        true
    } else {
        expr_wf(s[0], nvars) && exprs_wf(s.drop_first(), nvars)
    }
}

/// Well-formed node.
pub open spec fn node_wf(n: SpecNode, nvars: nat) -> bool {
    match n {
        SpecNode::Defn(d) => d.var < nvars && expr_wf(d.expr, nvars),
        SpecNode::Expr(e) => expr_wf(e, nvars),
    }
}

/// Well-formedness of each node in a sequence.
pub open spec fn nodes_wf(s: Seq<SpecNode>, nvars: nat) -> bool {
    forall|i: int| 0 <= i < s.len() ==> node_wf(#[trigger] s[i], nvars)
}

/// Well-formed lifted lambda: consistent counts and a well-formed body.
pub open spec fn lambda_wf(l: SpecLambda, nvars: nat) -> bool {
    &&& fvs_wf(l.free_vars)
    &&& l.free_num == l.free_vars.len()
    &&& l.args_num <= l.local_num
    &&& l.local_num <= max_len()
    &&& nodes_wf(l.body, nvars)
}

/// Well-formedness of each lambda in a sequence.
pub open spec fn lambdas_wf(s: Seq<SpecLambda>, nvars: nat) -> bool {
    forall|i: int| 0 <= i < s.len() ==> lambda_wf(#[trigger] s[i], nvars)
}

/// Expression well-formedness is monotone in the arena size.
pub proof fn lemma_expr_wf_mono(e: SpecExpr, n1: nat, n2: nat)
    requires
        expr_wf(e, n1),
        n1 <= n2,
    ensures
        expr_wf(e, n2),
    decreases e,
{
    match e {
        SpecExpr::Call { proc, params } => {
            lemma_expr_wf_mono(*proc, n1, n2);
            lemma_exprs_wf_mono(params, n1, n2);
        },
        SpecExpr::If { test, conseq, alter } => {
            lemma_expr_wf_mono(*test, n1, n2);
            lemma_expr_wf_mono(*conseq, n1, n2);
            lemma_expr_wf_mono(*alter, n1, n2);
        },
        _ => {},
    }
}

proof fn lemma_exprs_wf_mono(s: Seq<SpecExpr>, n1: nat, n2: nat)
    requires
        exprs_wf(s, n1),
        n1 <= n2,
    ensures
        exprs_wf(s, n2),
    decreases s,
{
    if s.len() > 0 {
        lemma_expr_wf_mono(s[0], n1, n2);
        lemma_exprs_wf_mono(s.drop_first(), n1, n2);
    }
}

/// Node well-formedness is monotone in the arena size.
pub proof fn lemma_node_wf_mono(n: SpecNode, n1: nat, n2: nat)
    requires
        node_wf(n, n1),
        n1 <= n2,
    ensures
        node_wf(n, n2),
{
    match n {
        SpecNode::Defn(d) => lemma_expr_wf_mono(d.expr, n1, n2),
        SpecNode::Expr(e) => lemma_expr_wf_mono(e, n1, n2),
    }
}

/// The number of IR nodes in an expression, counting one per variant.
pub open spec fn expr_size(e: SpecExpr) -> nat
    decreases e,
{
    match e {
        SpecExpr::Var(_) => 1,
        SpecExpr::Bool(_) => 1,
        SpecExpr::Int(_) => 1,
        SpecExpr::Proc(_, _) => 1,
        SpecExpr::Call { proc, params } => 1 + expr_size(*proc) + exprs_size(params),
        SpecExpr::If { test, conseq, alter } => 1 + expr_size(*test) + expr_size(*conseq)
            + expr_size(*alter),
    }
}

/// Total size of a sequence of expressions.
pub open spec fn exprs_size(s: Seq<SpecExpr>) -> nat
    decreases s,
{
    if s.len() == 0 {
        0
    } else {
        expr_size(s[0]) + exprs_size(s.drop_first())
    }
}

/// Size of a node.
pub open spec fn node_size(n: SpecNode) -> nat {
    match n {
        SpecNode::Defn(d) => 1 + expr_size(d.expr),
        SpecNode::Expr(e) => expr_size(e),
    }
}

/// Total size of a sequence of nodes.
pub open spec fn nodes_size(s: Seq<SpecNode>) -> nat
    decreases s.len(),
{
    if s.len() == 0 {
        0
    } else {
        node_size(s[0]) + nodes_size(s.drop_first())
    }
}

/// Total body size of a sequence of lifted lambdas.
pub open spec fn lambdas_size(s: Seq<SpecLambda>) -> nat
    decreases s.len(),
{
    if s.len() == 0 {
        0
    } else {
        nodes_size(s[0].body) + lambdas_size(s.drop_first())
    }
}

/// Appending to a node sequence adds the node's size.
pub proof fn lemma_nodes_size_push(s: Seq<SpecNode>, n: SpecNode)
    ensures
        nodes_size(s.push(n)) == nodes_size(s) + node_size(n),
    decreases s.len(),
{
    if s.len() == 0 {
        assert(s.push(n).drop_first() =~= Seq::<SpecNode>::empty());
        assert(s.push(n)[0] == n);
        assert(nodes_size(s.push(n).drop_first()) == 0);
        assert(nodes_size(s.push(n)) == node_size(n) + nodes_size(s.push(n).drop_first()));
        assert(nodes_size(s) == 0);
    } else {
        assert(s.push(n).drop_first() =~= s.drop_first().push(n));
        assert(s.push(n)[0] == s[0]);
        lemma_nodes_size_push(s.drop_first(), n);
        assert(nodes_size(s.push(n)) == node_size(s[0]) + nodes_size(s.push(n).drop_first()));
        assert(nodes_size(s) == node_size(s[0]) + nodes_size(s.drop_first()));
    }
}

/// Appending to a lambda sequence adds its body size.
pub proof fn lemma_lambdas_size_push(s: Seq<SpecLambda>, l: SpecLambda)
    ensures
        lambdas_size(s.push(l)) == lambdas_size(s) + nodes_size(l.body),
    decreases s.len(),
{
    if s.len() == 0 {
        assert(s.push(l).drop_first() =~= Seq::<SpecLambda>::empty());
        assert(s.push(l)[0] == l);
        assert(lambdas_size(s.push(l).drop_first()) == 0);
        assert(lambdas_size(s.push(l)) == nodes_size(l.body) + lambdas_size(
            s.push(l).drop_first(),
        ));
        assert(lambdas_size(s) == 0);
    } else {
        assert(s.push(l).drop_first() =~= s.drop_first().push(l));
        assert(s.push(l)[0] == s[0]);
        lemma_lambdas_size_push(s.drop_first(), l);
        assert(lambdas_size(s.push(l)) == nodes_size(s[0].body) + lambdas_size(
            s.push(l).drop_first(),
        ));
        assert(lambdas_size(s) == nodes_size(s[0].body) + lambdas_size(s.drop_first()));
    }
}

/// Appending to an expression sequence adds its size.
pub proof fn lemma_exprs_size_push(s: Seq<SpecExpr>, e: SpecExpr)
    ensures
        exprs_size(s.push(e)) == exprs_size(s) + expr_size(e),
    decreases s.len(),
{
    if s.len() == 0 {
        assert(s.push(e).drop_first() =~= Seq::<SpecExpr>::empty());
        assert(s.push(e)[0] == e);
        assert(exprs_size(s.push(e).drop_first()) == 0);
        assert(exprs_size(s.push(e)) == expr_size(e) + exprs_size(s.push(e).drop_first()));
        assert(exprs_size(s) == 0);
    } else {
        assert(s.push(e).drop_first() =~= s.drop_first().push(e));
        assert(s.push(e)[0] == s[0]);
        lemma_exprs_size_push(s.drop_first(), e);
        assert(exprs_size(s.push(e)) == expr_size(s[0]) + exprs_size(s.push(e).drop_first()));
        assert(exprs_size(s) == expr_size(s[0]) + exprs_size(s.drop_first()));
    }
}

/// Appending to an expression sequence keeps well-formedness.
pub proof fn lemma_exprs_wf_push(s: Seq<SpecExpr>, e: SpecExpr, nvars: nat)
    requires
        exprs_wf(s, nvars),
        expr_wf(e, nvars),
    ensures
        exprs_wf(s.push(e), nvars),
    decreases s.len(),
{
    if s.len() == 0 {
        assert(s.push(e).drop_first() =~= Seq::<SpecExpr>::empty());
        assert(s.push(e)[0] == e);
        assert(exprs_wf(s.push(e).drop_first(), nvars));
        assert(exprs_wf(s.push(e), nvars) == (expr_wf(e, nvars) && exprs_wf(
            s.push(e).drop_first(),
            nvars,
        )));
    } else {
        assert(s.push(e).drop_first() =~= s.drop_first().push(e));
        assert(s.push(e)[0] == s[0]);
        lemma_exprs_wf_push(s.drop_first(), e, nvars);
        assert(exprs_wf(s.push(e), nvars) == (expr_wf(s[0], nvars) && exprs_wf(
            s.push(e).drop_first(),
            nvars,
        )));
    }
}

/// Marking one arena binding captured preserves well-formedness.
proof fn lemma_env_wf_after_mark(e0: SpecEnv, e1: SpecEnv, idx: int)
    requires
        env_wf(e0),
        0 <= idx < e0.vars.len(),
        e1.frames =~~= e0.frames,
        e1.vars =~= e0.vars.update(idx, mark_var(e0.vars[idx], true)),
    ensures
        env_wf(e1),
{
    assert forall|i: int, j: int|
        0 <= i < e1.frames.len() && 0 <= j < e1.frames[i].len() implies #[trigger] frame_entry_wf(
        e1,
        i,
        j,
    ) by {
        assert(frame_entry_wf(e0, i, j));
    }
    assert forall|k: int| 0 <= k < e1.vars.len() implies var_wf(#[trigger] e1.vars[k]) by {
        assert(var_wf(e0.vars[k]));
    }
}

/// Total number of bindings currently installed across all frames.
pub open spec fn frames_total(frames: Seq<Seq<(Seq<char>, usize)>>) -> nat
    decreases frames.len(),
{
    if frames.len() == 0 {
        0
    } else {
        frames.last().len() + frames_total(frames.drop_last())
    }
}

proof fn lemma_frames_total_push(frames: Seq<Seq<(Seq<char>, usize)>>, f: Seq<(Seq<char>, usize)>)
    ensures
        frames_total(frames.push(f)) == frames_total(frames) + f.len(),
{
    assert(frames.push(f).last() == f);
    assert(frames.push(f).drop_last() =~= frames);
}

proof fn lemma_frames_total_update_last(
    frames: Seq<Seq<(Seq<char>, usize)>>,
    f: Seq<(Seq<char>, usize)>,
)
    requires
        frames.len() >= 1,
    ensures
        frames_total(frames.update(frames.len() - 1, f)) == frames_total(frames)
            - frames.last().len() + f.len(),
{
    let u = frames.update(frames.len() - 1, f);
    assert(u.last() == f);
    assert(u.drop_last() =~= frames.drop_last());
}

proof fn lemma_frames_total_update0(frames: Seq<Seq<(Seq<char>, usize)>>, f: Seq<(Seq<char>, usize)>)
    requires
        frames.len() >= 1,
    ensures
        frames_total(frames.update(0, f)) == frames_total(frames) - frames[0].len() + f.len(),
    decreases frames.len(),
{
    let u = frames.update(0, f);
    if frames.len() == 1 {
        assert(u.last() == f);
        assert(u.drop_last() =~= frames.drop_last());
        assert(frames.last() == frames[0]);
    } else {
        assert(u.last() == frames.last());
        assert(u.drop_last() =~= frames.drop_last().update(0, f));
        lemma_frames_total_update0(frames.drop_last(), f);
        assert(frames.drop_last()[0] == frames[0]);
    }
}

proof fn lemma_frames_total_bound(frames: Seq<Seq<(Seq<char>, usize)>>, i: int)
    requires
        0 <= i < frames.len(),
    ensures
        frames[i].len() <= frames_total(frames),
    decreases frames.len(),
{
    if i == frames.len() - 1 {
        assert(frames.last() == frames[i]);
    } else {
        assert(frames.drop_last()[i] == frames[i]);
        lemma_frames_total_bound(frames.drop_last(), i);
    }
}

/// Number of open parentheses among the tokens in `[a, b)`.
pub open spec fn count_open_range(ts: Seq<crate::lexer::SpecToken>, a: int, b: int) -> nat
    decreases b - a,
{
    if a < 0 || b > ts.len() || a >= b {
        0
    } else {
        (if ts[a] is OpenPar {
            1nat
        } else {
            0nat
        }) + count_open_range(ts, a + 1, b)
    }
}

/// Number of close parentheses among the tokens in `[a, b)`.
pub open spec fn count_close_range(ts: Seq<crate::lexer::SpecToken>, a: int, b: int) -> nat
    decreases b - a,
{
    if a < 0 || b > ts.len() || a >= b {
        0
    } else {
        (if ts[a] is ClosePar {
            1nat
        } else {
            0nat
        }) + count_close_range(ts, a + 1, b)
    }
}

/// Paren counts over a range split at `b`.
pub proof fn lemma_count_split(ts: Seq<crate::lexer::SpecToken>, a: int, b: int, c: int)
    requires
        0 <= a <= b <= c <= ts.len(),
    ensures
        count_open_range(ts, a, c) == count_open_range(ts, a, b) + count_open_range(ts, b, c),
        count_close_range(ts, a, c) == count_close_range(ts, a, b) + count_close_range(ts, b, c),
    decreases b - a,
{
    if a < b {
        lemma_count_split(ts, a + 1, b, c);
        assert(count_open_range(ts, a, c) == (if ts[a] is OpenPar {
            1nat
        } else {
            0nat
        }) + count_open_range(ts, a + 1, c));
        assert(count_open_range(ts, a, b) == (if ts[a] is OpenPar {
            1nat
        } else {
            0nat
        }) + count_open_range(ts, a + 1, b));
        assert(count_close_range(ts, a, c) == (if ts[a] is ClosePar {
            1nat
        } else {
            0nat
        }) + count_close_range(ts, a + 1, c));
        assert(count_close_range(ts, a, b) == (if ts[a] is ClosePar {
            1nat
        } else {
            0nat
        }) + count_close_range(ts, a + 1, b));
    }
}

/// Token sequences whose identifier tokens never spell a bare
/// parenthesis; everything the lexer produces satisfies this.
pub open spec fn tokens_wf(ts: Seq<crate::lexer::SpecToken>) -> bool {
    forall|i: int|
        0 <= i < ts.len() ==> ((#[trigger] ts[i]) matches crate::lexer::SpecToken::Ident(s) ==> s
            != "("@ && s != ")"@)
}

/// Paren-balance of the token range `[a, b)`, under token
/// well-formedness.
pub open spec fn expr_balanced(ts: Seq<crate::lexer::SpecToken>, a: int, b: int) -> bool {
    tokens_wf(ts) ==> count_open_range(ts, a, b) == count_close_range(ts, a, b)
}

/// A definition body range `[a, b)` closes one more paren than it opens:
/// it starts after `( define` and ends at the matching `)`.
pub open spec fn defn_balanced(ts: Seq<crate::lexer::SpecToken>, a: int, b: int) -> bool {
    tokens_wf(ts) ==> count_close_range(ts, a, b) == count_open_range(ts, a, b) + 1
}

/// The error that aborts a parse.  Each variant carries what its
/// one-line diagnostic needs: the undefined name, or the expected word.
#[derive(Debug, PartialEq)]
pub enum ParseError {
    UnexpectedEnd,
    ExpectedIdentifier,
    UndefinedVariable(String),
    UnexpectedCloseParen,
    UnexpectedPeriod,
    Expected(String),
}

/// The images of a sequence of lifted lambdas.
pub open spec fn view_lambdas(s: Seq<Lambda>) -> Seq<SpecLambda> {
    Seq::new(s.len(), |i: int| s[i]@)
}

/// The recursive-descent parser: a cursor over the token list, the
/// environment, the lifted lambdas and the top-level nodes.
pub struct Parser {
    pub token_list: Vec<Token>,
    pub pos: usize,
    pub env: Env,
    pub proc_list: Vec<Lambda>,
    pub node_list: Vec<Node>,
}

/// The structural well-formedness the parser guarantees of its output:
/// a well-formed environment, and every variable reference in every
/// lifted lambda and top-level node resolvable in the arena.
pub open spec fn parser_ir_wf(p: Parser) -> bool {
    &&& env_wf(p.env@)
    &&& lambdas_wf(view_lambdas(p.proc_list@), p.env@.vars.len())
    &&& nodes_wf(view_nodes(p.node_list@), p.env@.vars.len())
}

/// Total number of IR nodes the parser has produced.
pub open spec fn parser_ir_size(p: Parser) -> nat {
    lambdas_size(view_lambdas(p.proc_list@)) + nodes_size(view_nodes(p.node_list@))
}

/// The parser invariant: a bounded token list, a cursor inside it, well
/// formed output, and every binding paid for by a consumed token.
pub open spec fn parser_wf(p: Parser) -> bool {
    &&& p.token_list@.len() <= max_len()
    &&& p.pos <= p.token_list@.len()
    &&& parser_ir_wf(p)
    &&& frames_total(p.env@.frames) <= p.pos
    &&& p.env@.vars.len() <= p.pos
    &&& parser_ir_size(p) <= p.pos
}

/// Every frame but the innermost is untouched; the innermost may gain
/// entries at its end.
spec fn frames_extend(f0: Seq<Seq<(Seq<char>, usize)>>, f1: Seq<Seq<(Seq<char>, usize)>>) -> bool {
    &&& f1.len() == f0.len()
    &&& forall|i: int| 0 <= i < f0.len() - 1 ==> f1[i] == f0[i]
    &&& (f0.len() >= 1 ==> f0.last().is_prefix_of(f1.last()))
}

proof fn lemma_frames_extend_refl(f: Seq<Seq<(Seq<char>, usize)>>)
    ensures
        frames_extend(f, f),
{
    if f.len() >= 1 {
        assert(f.last() =~= f.last().subrange(0, f.last().len() as int));
    }
}

proof fn lemma_frames_extend_trans(
    f0: Seq<Seq<(Seq<char>, usize)>>,
    f1: Seq<Seq<(Seq<char>, usize)>>,
    f2: Seq<Seq<(Seq<char>, usize)>>,
)
    requires
        frames_extend(f0, f1),
        frames_extend(f1, f2),
    ensures
        frames_extend(f0, f2),
{
    if f0.len() >= 1 {
        assert(f0.last().is_prefix_of(f2.last())) by {
            assert(f0.last() =~= f2.last().subrange(0, f0.last().len() as int));
        }
    }
}

/// What every parse step preserves of the parser state, also on an
/// aborted parse.
spec fn step_any(p0: Parser, p1: Parser) -> bool {
    &&& parser_wf(p1)
    &&& p1.token_list == p0.token_list
    &&& p0.pos <= p1.pos <= p1.token_list@.len()
    &&& p0.env@.vars.len() <= p1.env@.vars.len()
    &&& p1.node_list == p0.node_list
}

proof fn lemma_step_any_refl(p: Parser)
    requires
        parser_wf(p),
    ensures
        step_any(p, p),
{
}

/// What a parse step may do to the running free-variable set of the
/// current lambda: extend it at the end, by at most one entry per
/// consumed token, keeping it well formed.
spec fn fv_step(f0: Seq<(usize, Seq<char>)>, f1: Seq<(usize, Seq<char>)>, consumed: int) -> bool {
    &&& f0.is_prefix_of(f1)
    &&& f1.len() <= f0.len() + consumed
    &&& fvs_wf(f1)
}

proof fn lemma_fv_step_trans(
    f0: Seq<(usize, Seq<char>)>,
    f1: Seq<(usize, Seq<char>)>,
    f2: Seq<(usize, Seq<char>)>,
    c1: int,
    c2: int,
)
    requires
        fv_step(f0, f1, c1),
        fv_step(f1, f2, c2),
        c1 >= 0,
        c2 >= 0,
    ensures
        fv_step(f0, f2, c1 + c2),
{
    assert(f0.is_prefix_of(f2)) by {
        assert(f0 =~= f2.subrange(0, f0.len() as int));
    }
}

proof fn lemma_fv_step_refl(f: Seq<(usize, Seq<char>)>, c: int)
    requires
        fvs_wf(f),
        c >= 0,
    ensures
        fv_step(f, f, c),
{
    assert(f =~= f.subrange(0, f.len() as int));
}

/// A captured-local offset found through the environment is bounded.
proof fn lemma_frame_fv_find_wf(
    vars: Seq<SpecVar>,
    f: Seq<(Seq<char>, usize)>,
    name: Seq<char>,
    j: int,
)
    requires
        forall|k: int| 0 <= k < vars.len() ==> var_wf(#[trigger] vars[k]),
        frame_fv_find_from(vars, f, name, j) is Some,
    ensures
        fv_entry_wf((frame_fv_find_from(vars, f, name, j).unwrap(), name)),
    decreases f.len() - j,
{
    if !(j < 0 || j >= f.len()) {
        if f[j].0 == name && f[j].1 < vars.len() && spec_var_captured(vars[f[j].1 as int]) {
            assert(var_wf(vars[f[j].1 as int]));
        } else {
            lemma_frame_fv_find_wf(vars, f, name, j + 1);
        }
    }
}

/// Offsets produced by a whole-environment free-variable lookup are
/// bounded.
proof fn lemma_env_find_fv_wf(env: SpecEnv, name: Seq<char>, i: int)
    requires
        forall|k: int| 0 <= k < env.vars.len() ==> var_wf(#[trigger] env.vars[k]),
        env_find_fv_from(env, name, i) is Some,
    ensures
        fv_entry_wf((env_find_fv_from(env, name, i).unwrap(), name)),
    decreases i + 1,
{
    if !(i < 0 || i >= env.frames.len()) {
        match frame_fv_find_from(env.vars, env.frames[i], name, 0) {
            Some(_) => {
                lemma_frame_fv_find_wf(env.vars, env.frames[i], name, 0);
            },
            None => {
                lemma_env_find_fv_wf(env, name, i - 1);
            },
        }
    }
}

/// The entry appended for `name` when it is absent: the offset the
/// free-variable lookup finds.
pub open spec fn fv_insert(
    acc: Seq<(usize, Seq<char>)>,
    e: (usize, Seq<char>),
) -> Seq<(usize, Seq<char>)> {
    if fv_contains_name(acc, e.1) {
        acc
    } else {
        acc.push(e)
    }
}

/// The free-variable set of the enclosing lambda after the names an
/// inner lambda captured are propagated outward: each inner entry whose
/// name still resolves across a frame boundary is appended (unless
/// already present), in the inner set's iteration order.
pub open spec fn spec_propagate(
    env: SpecEnv,
    inner: Seq<(usize, Seq<char>)>,
    acc: Seq<(usize, Seq<char>)>,
    k: int,
) -> Seq<(usize, Seq<char>)>
    decreases inner.len() - k,
{
    if k < 0 || k >= inner.len() {
        acc
    } else {
        let name = inner[k].1;
        let acc2 = if env_is_free(env, name) {
            match env_find_fv(env, name) {
                Some(off) => fv_insert(acc, (off, name)),
                None => acc,
            }
        } else {
            acc
        };
        spec_propagate(env, inner, acc2, k + 1)
    }
}

/// Propagates an inner lambda's free variables into the enclosing
/// lambda's running set.
pub fn propagate_free_vars(env: &Env, inner: &FVs, outer: &mut FVs)
    requires
        env_wf(env@),
        fvs_wf(old(outer)@),
        old(outer)@.len() + inner@.len() <= max_len(),
    ensures
        final(outer)@ == spec_propagate(env@, inner@, old(outer)@, 0),
        fvs_wf(final(outer)@),
        old(outer)@.is_prefix_of(final(outer)@),
        final(outer)@.len() <= old(outer)@.len() + inner@.len(),
{
    let entries = inner.iter();
    let n = entries.len();
    let mut k: usize = 0;
    while k < n
        invariant
            n == inner@.len(),
            k <= n,
            env_wf(env@),
            fvs_wf(outer@),
            old(outer)@.is_prefix_of(outer@),
            outer@.len() <= old(outer)@.len() + k,
            old(outer)@.len() + n <= max_len(),
            entries@.len() == inner@.len(),
            forall|i: int|
                0 <= i < inner@.len() ==> (#[trigger] entries@[i]).0 == inner@[i].0
                    && entries@[i].1@ == inner@[i].1,
            spec_propagate(env@, inner@, old(outer)@, 0) == spec_propagate(
                env@,
                inner@,
                outer@,
                k as int,
            ),
        decreases n - k,
    {
        let ghost outer0 = outer@;
        let name: &String = &entries[k].1;
        proof {
            assert(name@ == inner@[k as int].1);
        }
        if env.is_free(name.as_str()) {
            match env.find_fv(name.as_str()) {
                Some(p) => {
                    proof {
                        lemma_env_find_fv_wf(env@, name@, env@.frames.len() - 1);
                    }
                    outer.insert(p);
                    proof {
                        assert(outer@ =~= fv_insert(outer0, (p.0, p.1@)));
                        if !fv_contains_name(outer0, p.1@) {
                            assert(outer@ =~= outer0.push((p.0, p.1@)));
                            assert(fv_entry_wf((p.0, p.1@)));
                            assert forall|i: int|
                                0 <= i < outer@.len() implies fv_entry_wf(
                                #[trigger] outer@[i],
                            ) by {
                                if i < outer0.len() {
                                    assert(outer@[i] == outer0[i]);
                                    assert(fv_entry_wf(outer0[i]));
                                }
                            }
                            assert forall|i: int, j: int|
                                0 <= i < j < outer@.len() implies (#[trigger] outer@[i]).1 != (
                            #[trigger] outer@[j]).1 by {
                                if j == outer@.len() - 1 {
                                    assert(outer@[i] == outer0[i]);
                                    if outer@[i].1 == p.1@ {
                                        lemma_fv_contains_witness(outer0, i);
                                        assert(false);
                                    }
                                } else {
                                    assert(outer@[i] == outer0[i]);
                                    assert(outer@[j] == outer0[j]);
                                }
                            }
                            assert(fvs_wf(outer@));
                        }
                    }
                },
                None => {},
            }
        }
        proof {
            assert(old(outer)@.is_prefix_of(outer@)) by {
                assert(old(outer)@ =~= outer@.subrange(0, old(outer)@.len() as int));
            }
            assert(spec_propagate(env@, inner@, outer0, k as int) == spec_propagate(
                env@,
                inner@,
                outer@,
                k as int + 1,
            ));
        }
        k = k + 1;
    }
}

proof fn lemma_prefix_trans(
    a: Seq<(usize, Seq<char>)>,
    b: Seq<(usize, Seq<char>)>,
    c: Seq<(usize, Seq<char>)>,
)
    requires
        a.is_prefix_of(b),
        b.is_prefix_of(c),
    ensures
        a.is_prefix_of(c),
{
    assert(a =~= c.subrange(0, a.len() as int));
}

/// An entry found in a prefix keeps its position in any extension.
proof fn lemma_fv_index_of_prefix(
    a: Seq<(usize, Seq<char>)>,
    b: Seq<(usize, Seq<char>)>,
    name: Seq<char>,
    j: int,
)
    requires
        0 <= j <= a.len(),
        a.is_prefix_of(b),
        fv_index_of_from(a, name, j) >= 0,
    ensures
        fv_index_of_from(b, name, j) == fv_index_of_from(a, name, j),
    decreases a.len() - j,
{
    if j < a.len() {
        assert(b[j] == a[j]);
        if a[j].1 != name {
            lemma_fv_index_of_prefix(a, b, name, j + 1);
        }
    }
}

/// The position of a name in a sequence extended by one entry.
proof fn lemma_fv_index_push(
    v: Seq<(usize, Seq<char>)>,
    e: (usize, Seq<char>),
    name: Seq<char>,
    j: int,
)
    requires
        0 <= j <= v.len(),
    ensures
        fv_index_of_from(v.push(e), name, j) == (if fv_index_of_from(v, name, j) >= 0 {
            fv_index_of_from(v, name, j)
        } else if e.1 == name {
            v.len() as int
        } else {
            -1
        }),
    decreases v.len() - j,
{
    let w = v.push(e);
    if j < v.len() {
        assert(w[j] == v[j]);
        if v[j].1 != name {
            lemma_fv_index_push(v, e, name, j + 1);
        }
    } else {
        assert(w[j] == e);
        if e.1 != name {
            assert(fv_index_of_from(w, name, j + 1) == -1);
        }
    }
}

/// [`spec_propagate`] only appends to the accumulated set.
pub proof fn lemma_propagate_prefix(
    env: SpecEnv,
    inner: Seq<(usize, Seq<char>)>,
    acc: Seq<(usize, Seq<char>)>,
    k: int,
)
    ensures
        acc.is_prefix_of(spec_propagate(env, inner, acc, k)),
    decreases inner.len() - k,
{
    if k < 0 || k >= inner.len() {
        assert(acc =~= acc.subrange(0, acc.len() as int));
    } else {
        let name = inner[k].1;
        let acc2 = if env_is_free(env, name) {
            match env_find_fv(env, name) {
                Some(off) => fv_insert(acc, (off, name)),
                None => acc,
            }
        } else {
            acc
        };
        lemma_propagate_prefix(env, inner, acc2, k + 1);
        assert(acc.is_prefix_of(acc2)) by {
            if acc2 != acc {
                assert(acc =~= acc2.subrange(0, acc.len() as int));
            } else {
                assert(acc =~= acc2.subrange(0, acc.len() as int));
            }
        }
        lemma_prefix_trans(acc, acc2, spec_propagate(env, inner, acc2, k + 1));
    }
}

/// Outward propagation (membership): every name an inner lambda
/// captured that still resolves across a frame boundary in the enclosing
/// environment appears in the enclosing lambda's free-variable set after
/// propagation.
pub proof fn lemma_propagate_membership(
    env: SpecEnv,
    inner: Seq<(usize, Seq<char>)>,
    acc: Seq<(usize, Seq<char>)>,
    k: int,
    t: int,
)
    requires
        0 <= k <= t < inner.len(),
        env_is_free(env, inner[t].1),
        env_find_fv(env, inner[t].1) is Some,
    ensures
        fv_contains_name(spec_propagate(env, inner, acc, k), inner[t].1),
    decreases inner.len() - k,
{
    let name = inner[k].1;
    let acc2 = if env_is_free(env, name) {
        match env_find_fv(env, name) {
            Some(off) => fv_insert(acc, (off, name)),
            None => acc,
        }
    } else {
        acc
    };
    if k == t {
        let off = env_find_fv(env, name).unwrap();
        assert(acc2 == fv_insert(acc, (off, name)));
        assert(fv_contains_name(acc2, name)) by {
            if fv_contains_name(acc, name) {
            } else {
                lemma_fv_contains_witness(acc.push((off, name)), acc.len() as int);
            }
        }
        let r = spec_propagate(env, inner, acc2, k + 1);
        lemma_propagate_prefix(env, inner, acc2, k + 1);
        lemma_fv_index_of_prefix(acc2, r, name, 0);
    } else {
        lemma_propagate_membership(env, inner, acc2, k + 1, t);
    }
}

/// A name not in the accumulated set lands at or after its end.
proof fn lemma_propagate_position(
    env: SpecEnv,
    inner: Seq<(usize, Seq<char>)>,
    acc: Seq<(usize, Seq<char>)>,
    k: int,
    t: int,
)
    requires
        0 <= k <= t < inner.len(),
        fvs_wf(inner),
        env_is_free(env, inner[t].1),
        env_find_fv(env, inner[t].1) is Some,
        !fv_contains_name(acc, inner[t].1),
    ensures
        fv_index_of(spec_propagate(env, inner, acc, k), inner[t].1) >= acc.len(),
    decreases inner.len() - k,
{
    let tname = inner[t].1;
    let name = inner[k].1;
    let acc2 = if env_is_free(env, name) {
        match env_find_fv(env, name) {
            Some(off) => fv_insert(acc, (off, name)),
            None => acc,
        }
    } else {
        acc
    };
    if k == t {
        let off = env_find_fv(env, name).unwrap();
        assert(acc2 == acc.push((off, name)));
        lemma_fv_index_push(acc, (off, name), name, 0);
        assert(fv_index_of(acc2, name) == acc.len());
        let r = spec_propagate(env, inner, acc2, k + 1);
        lemma_propagate_prefix(env, inner, acc2, k + 1);
        lemma_fv_index_of_prefix(acc2, r, name, 0);
    } else {
        assert(name != tname);
        assert(!fv_contains_name(acc2, tname)) by {
            if acc2 != acc {
                let off = env_find_fv(env, name).unwrap();
                if !fv_contains_name(acc, name) {
                    assert(acc2 == acc.push((off, name)));
                    lemma_fv_index_push(acc, (off, name), tname, 0);
                }
            }
        }
        lemma_propagate_position(env, inner, acc2, k + 1, t);
        assert(acc.len() <= acc2.len());
    }
}

/// Outward propagation (order): two names an inner lambda captured that
/// both propagate into the enclosing lambda's set, and were not already
/// there, appear in the enclosing set in the inner set's iteration
/// order.
pub proof fn lemma_propagate_order(
    env: SpecEnv,
    inner: Seq<(usize, Seq<char>)>,
    acc: Seq<(usize, Seq<char>)>,
    k: int,
    i: int,
    j: int,
)
    requires
        0 <= k <= i < j < inner.len(),
        fvs_wf(inner),
        env_is_free(env, inner[i].1),
        env_find_fv(env, inner[i].1) is Some,
        !fv_contains_name(acc, inner[i].1),
        env_is_free(env, inner[j].1),
        env_find_fv(env, inner[j].1) is Some,
        !fv_contains_name(acc, inner[j].1),
    ensures
        ({
            let r = spec_propagate(env, inner, acc, k);
            0 <= fv_index_of(r, inner[i].1) && fv_index_of(r, inner[i].1) < fv_index_of(
                r,
                inner[j].1,
            )
        }),
    decreases inner.len() - k,
{
    let iname = inner[i].1;
    let jname = inner[j].1;
    let name = inner[k].1;
    let acc2 = if env_is_free(env, name) {
        match env_find_fv(env, name) {
            Some(off) => fv_insert(acc, (off, name)),
            None => acc,
        }
    } else {
        acc
    };
    if k == i {
        let off = env_find_fv(env, name).unwrap();
        assert(acc2 == acc.push((off, name)));
        lemma_fv_index_push(acc, (off, name), name, 0);
        assert(fv_index_of(acc2, name) == acc.len());
        let r = spec_propagate(env, inner, acc2, k + 1);
        lemma_propagate_prefix(env, inner, acc2, k + 1);
        lemma_fv_index_of_prefix(acc2, r, name, 0);
        assert(fv_index_of(r, iname) == acc.len());
        assert(jname != name);
        assert(!fv_contains_name(acc2, jname)) by {
            lemma_fv_index_push(acc, (off, name), jname, 0);
        }
        lemma_propagate_position(env, inner, acc2, k + 1, j);
        assert(fv_index_of(r, jname) >= acc2.len());
    } else {
        assert(name != iname && name != jname);
        assert(!fv_contains_name(acc2, iname) && !fv_contains_name(acc2, jname)) by {
            if acc2 != acc {
                let off = env_find_fv(env, name).unwrap();
                if !fv_contains_name(acc, name) {
                    assert(acc2 == acc.push((off, name)));
                    lemma_fv_index_push(acc, (off, name), iname, 0);
                    lemma_fv_index_push(acc, (off, name), jname, 0);
                }
            }
        }
        lemma_propagate_order(env, inner, acc2, k + 1, i, j);
    }
}

/// Node-sequence well-formedness is monotone in the arena size.
pub proof fn lemma_nodes_wf_mono(s: Seq<SpecNode>, n1: nat, n2: nat)
    requires
        nodes_wf(s, n1),
        n1 <= n2,
    ensures
        nodes_wf(s, n2),
{
    assert forall|i: int| 0 <= i < s.len() implies node_wf(#[trigger] s[i], n2) by {
        lemma_node_wf_mono(s[i], n1, n2);
    }
}

/// Lambda-sequence well-formedness is monotone in the arena size.
pub proof fn lemma_lambdas_wf_mono(s: Seq<SpecLambda>, n1: nat, n2: nat)
    requires
        lambdas_wf(s, n1),
        n1 <= n2,
    ensures
        lambdas_wf(s, n2),
{
    assert forall|i: int| 0 <= i < s.len() implies lambda_wf(#[trigger] s[i], n2) by {
        assert(lambda_wf(s[i], n1));
        lemma_nodes_wf_mono(s[i].body, n1, n2);
    }
}

proof fn lemma_frame_index_all_diff(f: Seq<(Seq<char>, usize)>, name: Seq<char>, j: int)
    requires
        0 <= j <= f.len(),
        frame_index_of_from(f, name, j) < 0,
    ensures
        forall|k: int| j <= k < f.len() ==> (#[trigger] f[k]).0 != name,
    decreases f.len() - j,
{
    if j < f.len() {
        lemma_frame_index_all_diff(f, name, j + 1);
    }
}

/// Opening an empty frame preserves environment well-formedness.
proof fn lemma_env_wf_push_frame(e0: SpecEnv, e1: SpecEnv)
    requires
        env_wf(e0),
        e1.frames =~~= e0.frames.push(Seq::empty()),
        e1.vars =~= e0.vars,
    ensures
        env_wf(e1),
{
    assert forall|i: int, j: int|
        0 <= i < e1.frames.len() && 0 <= j < e1.frames[i].len() implies #[trigger] frame_entry_wf(
        e1,
        i,
        j,
    ) by {
        assert(i < e0.frames.len() && e1.frames[i] == e0.frames[i]);
        assert(frame_entry_wf(e0, i, j));
    }
    assert(e1.frames[0] == e0.frames[0]);
}

/// Closing the innermost frame preserves environment well-formedness.
proof fn lemma_env_wf_pop_frame(e0: SpecEnv, e1: SpecEnv)
    requires
        env_wf(e0),
        e0.frames.len() >= 2,
        e1.frames =~~= e0.frames.drop_last(),
        e1.vars =~= e0.vars,
    ensures
        env_wf(e1),
{
    assert forall|i: int, j: int|
        0 <= i < e1.frames.len() && 0 <= j < e1.frames[i].len() implies #[trigger] frame_entry_wf(
        e1,
        i,
        j,
    ) by {
        assert(e1.frames[i] == e0.frames[i]);
        assert(frame_entry_wf(e0, i, j));
    }
    assert(e1.frames[0] == e0.frames[0]);
}

/// Installing a fresh global binding preserves environment
/// well-formedness.
proof fn lemma_env_wf_push_global(e0: SpecEnv, e1: SpecEnv, name: Seq<char>)
    requires
        env_wf(e0),
        e0.vars.len() <= usize::MAX,
        frame_index_of(e0.frames[0], name) < 0,
        e1.vars =~= e0.vars.push(SpecVar::Global(name)),
        e1.frames =~~= e0.frames.update(0, e0.frames[0].push((name, e0.vars.len() as usize))),
    ensures
        env_wf(e1),
{
    lemma_frame_index_all_diff(e0.frames[0], name, 0);
    assert forall|i: int, j: int|
        0 <= i < e1.frames.len() && 0 <= j < e1.frames[i].len() implies #[trigger] frame_entry_wf(
        e1,
        i,
        j,
    ) by {
        if i == 0 {
            if j < e0.frames[0].len() {
                assert(frame_entry_wf(e0, 0, j));
                assert(e1.frames[0][j] == e0.frames[0][j]);
                assert(e1.vars[e0.frames[0][j].1 as int] == e0.vars[e0.frames[0][j].1 as int]);
            } else {
                assert(e1.frames[0][j] == (name, e0.vars.len() as usize));
                assert(e1.vars[e0.vars.len() as int] == SpecVar::Global(name));
            }
        } else {
            assert(e1.frames[i] == e0.frames[i]);
            assert(frame_entry_wf(e0, i, j));
            assert(e1.vars[e0.frames[i][j].1 as int] == e0.vars[e0.frames[i][j].1 as int]);
        }
    }
    assert forall|k: int| 0 <= k < e1.vars.len() implies var_wf(#[trigger] e1.vars[k]) by {
        if k < e0.vars.len() {
            assert(var_wf(e0.vars[k]));
        }
    }
    assert forall|j1: int, j2: int|
        0 <= j1 < j2 < e1.frames[0].len() implies (#[trigger] e1.frames[0][j1]).0 != (
    #[trigger] e1.frames[0][j2]).0 by {
        if j2 < e0.frames[0].len() {
            assert(e1.frames[0][j1] == e0.frames[0][j1]);
            assert(e1.frames[0][j2] == e0.frames[0][j2]);
        } else {
            assert(e1.frames[0][j1] == e0.frames[0][j1]);
            assert(e1.frames[0][j2].0 == name);
        }
    }
}

/// Installing a local binding at the next slot of the innermost frame
/// preserves environment well-formedness.
proof fn lemma_env_wf_push_local(e0: SpecEnv, e1: SpecEnv, name: Seq<char>)
    requires
        env_wf(e0),
        e0.vars.len() <= usize::MAX,
        e0.frames.len() >= 2,
        e0.frames.last().len() + 1 <= max_len(),
        e1.vars =~= e0.vars.push(
            SpecVar::Local(name, (8 * (e0.frames.last().len() + 1)) as usize, false),
        ),
        e1.frames =~~= e0.frames.update(
            e0.frames.len() - 1,
            e0.frames.last().push((name, e0.vars.len() as usize)),
        ),
    ensures
        env_wf(e1),
{
    let li = e0.frames.len() - 1;
    assert forall|i: int, j: int|
        0 <= i < e1.frames.len() && 0 <= j < e1.frames[i].len() implies #[trigger] frame_entry_wf(
        e1,
        i,
        j,
    ) by {
        if i == li {
            if j < e0.frames[li].len() {
                assert(e0.frames.last() == e0.frames[li]);
                assert(frame_entry_wf(e0, i, j));
                assert(e1.frames[i][j] == e0.frames[i][j]);
                assert(e1.vars[e0.frames[i][j].1 as int] == e0.vars[e0.frames[i][j].1 as int]);
            } else {
                assert(e1.frames[i][j] == (name, e0.vars.len() as usize));
                assert(e1.vars[e0.vars.len() as int] == SpecVar::Local(
                    name,
                    (8 * (e0.frames.last().len() + 1)) as usize,
                    false,
                ));
                assert(j == e0.frames.last().len());
            }
        } else {
            assert(e1.frames[i] == e0.frames[i]);
            assert(frame_entry_wf(e0, i, j));
            assert(e1.vars[e0.frames[i][j].1 as int] == e0.vars[e0.frames[i][j].1 as int]);
        }
    }
    assert forall|k: int| 0 <= k < e1.vars.len() implies var_wf(#[trigger] e1.vars[k]) by {
        if k < e0.vars.len() {
            assert(var_wf(e0.vars[k]));
        }
    }
    assert(e1.frames[0] == e0.frames[0]);
}

/// Whether a token is the word `w`: an identifier spelling it, or the
/// paren token `w` names.
spec fn token_matches_word(t: SpecToken, w: Seq<char>) -> bool {
    match t {
        SpecToken::Ident(s) => s == w,
        SpecToken::OpenPar => w == "("@,
        SpecToken::ClosePar => w == ")"@,
        _ => false,
    }
}

proof fn lemma_paren_words()
    ensures
        "("@.len() == 1,
        "("@[0] == '(',
        ")"@.len() == 1,
        ")"@[0] == ')',
        "("@ != ")"@,
{
    reveal_strlit("(");
    reveal_strlit(")");
}

/// A token that matches a word of two or more characters is that
/// identifier.
proof fn lemma_match_word(t: SpecToken, w: Seq<char>)
    requires
        token_matches_word(t, w),
        w.len() >= 2,
    ensures
        t matches SpecToken::Ident(s) && s == w,
{
    lemma_paren_words();
}

/// Under token well-formedness, matching `(` means the open-paren token.
proof fn lemma_match_open(t: SpecToken)
    requires
        token_matches_word(t, "("@),
        t matches SpecToken::Ident(s) ==> s != "("@ && s != ")"@,
    ensures
        t is OpenPar,
{
    lemma_paren_words();
}

/// Under token well-formedness, matching `)` means the close-paren token.
proof fn lemma_match_close(t: SpecToken)
    requires
        token_matches_word(t, ")"@),
        t matches SpecToken::Ident(s) ==> s != "("@ && s != ")"@,
    ensures
        t is ClosePar,
{
    lemma_paren_words();
}

/// The identifiers that name built-in primitives.
pub open spec fn is_primitive(s: Seq<char>) -> bool {
    ||| s == "="@
    ||| s == "!="@
    ||| s == "<"@
    ||| s == "<="@
    ||| s == ">"@
    ||| s == ">="@
    ||| s == "+"@
    ||| s == "-"@
    ||| s == "*"@
    ||| s == "/"@
    ||| s == "cons"@
    ||| s == "car"@
    ||| s == "cdr"@
    ||| s == "rem"@
}

/// The canonical runtime label of a primitive identifier.
pub open spec fn prim_label_of(s: Seq<char>) -> Seq<char> {
    if s == "="@ {
        "equal"@
    } else if s == "!="@ {
        "neq"@
    } else if s == "<"@ {
        "lth"@
    } else if s == "<="@ {
        "leq"@
    } else if s == ">"@ {
        "gth"@
    } else if s == ">="@ {
        "geq"@
    } else if s == "+"@ {
        "add"@
    } else if s == "-"@ {
        "sub"@
    } else if s == "*"@ {
        "mul"@
    } else if s == "/"@ {
        "div"@
    } else {
        s
    }
}

proof fn lemma_prim_label_table()
    ensures
        prim_label_of("="@) == "equal"@,
        prim_label_of("!="@) == "neq"@,
        prim_label_of("<"@) == "lth"@,
        prim_label_of("<="@) == "leq"@,
        prim_label_of(">"@) == "gth"@,
        prim_label_of(">="@) == "geq"@,
        prim_label_of("+"@) == "add"@,
        prim_label_of("-"@) == "sub"@,
        prim_label_of("*"@) == "mul"@,
        prim_label_of("/"@) == "div"@,
        prim_label_of("cons"@) == "cons"@,
        prim_label_of("car"@) == "car"@,
        prim_label_of("cdr"@) == "cdr"@,
        prim_label_of("rem"@) == "rem"@,
{
    reveal_strlit("=");
    reveal_strlit("!=");
    reveal_strlit("<");
    reveal_strlit("<=");
    reveal_strlit(">");
    reveal_strlit(">=");
    reveal_strlit("+");
    reveal_strlit("-");
    reveal_strlit("*");
    reveal_strlit("/");
    reveal_strlit("cons");
    reveal_strlit("car");
    reveal_strlit("cdr");
    reveal_strlit("rem");
    assert("="@.len() == 1 && "="@[0] == '=');
    assert("!="@.len() == 2 && "!="@[0] == '!');
    assert("<"@.len() == 1 && "<"@[0] == '<');
    assert("<="@.len() == 2 && "<="@[0] == '<');
    assert(">"@.len() == 1 && ">"@[0] == '>');
    assert(">="@.len() == 2 && ">="@[0] == '>');
    assert("+"@.len() == 1 && "+"@[0] == '+');
    assert("-"@.len() == 1 && "-"@[0] == '-');
    assert("*"@.len() == 1 && "*"@[0] == '*');
    assert("/"@.len() == 1 && "/"@[0] == '/');
    assert("cons"@.len() == 4);
    assert("car"@.len() == 3);
    assert("cdr"@.len() == 3 && "cdr"@[1] == 'd');
    assert("rem"@.len() == 3 && "rem"@[0] == 'r');
}

/// The label of the lifted lambda with index `id`.
pub open spec fn lambda_label_of(id: nat) -> Seq<char> {
    seq!['_'] + dec_str(id)
}

fn lambda_label(id: usize) -> (r: String)
    ensures
        r@ == lambda_label_of(id as nat),
{
    let mut s = "_".to_owned();
    let num = dec_string(id as u64);
    s.append(num.as_str());
    proof {
        assert(s@ =~= seq!['_'] + dec_str(id as nat)) by {
            reveal_strlit("_");
        }
    }
    s
}

/// What the first token pins down about a successfully parsed
/// expression: a literal gives its literal node, a primitive its
/// canonical `Proc`, an identifier the binding the environment resolves,
/// and an open paren one of the three compound forms.
/// First position at or after `i` that does not hold an identifier
/// token: the end of a formal-parameter run.
pub open spec fn formals_run_end(ts: Seq<SpecToken>, i: int) -> int
    decreases ts.len() - i,
{
    if 0 <= i < ts.len() && ts[i] is Ident {
        formals_run_end(ts, i + 1)
    } else {
        i
    }
}

proof fn lemma_formals_run_end_at(ts: Seq<SpecToken>, a: int, j: int)
    requires
        0 <= a <= j <= ts.len(),
        forall|k: int| a <= k < j ==> (#[trigger] ts[k]) is Ident,
        j == ts.len() || !(ts[j] is Ident),
    ensures
        formals_run_end(ts, a) == j,
    decreases j - a,
{
    if a < j {
        lemma_formals_run_end_at(ts, a + 1, j);
    }
}

/// What a token pins down about the expression parsed at its
/// position, for the atomic heads: a literal its literal node, a
/// primitive its canonical `Proc`, a bound identifier its resolved
/// binding.  Used to tie the first sub-expression of a compound form
/// (whose start position is fixed by the head) to the tokens.
spec fn atom_pin(ts: Seq<SpecToken>, pos: int, env: SpecEnv, v: SpecExpr) -> bool {
    0 <= pos < ts.len() ==> match ts[pos] {
        SpecToken::Number(n) => v == SpecExpr::Int(n),
        SpecToken::Bool(b) => v == SpecExpr::Bool(b),
        SpecToken::Ident(s) => if is_primitive(s) {
            v == SpecExpr::Proc(prim_label_of(s), Seq::empty())
        } else {
            match env_lookup(env, s) {
                Some(hit) => v == SpecExpr::Var(env.frames[hit.0][hit.1].1),
                None => true,
            }
        },
        _ => true,
    }
}

/// What the first token pins down about a successfully parsed
/// expression.  A literal yields exactly its literal node; a primitive
/// its canonical `Proc`; both leave environment and free-variable set
/// untouched.  A bound identifier yields the binding the innermost-out
/// search finds, the environment changes by exactly the captured-flag
/// marking of that binding, and a cross-frame hit records its resolved
/// (slot, name) pair in the running free-variable set.  A `lambda` form
/// yields a `Proc` tied to the record just lifted — its label, its
/// free-variable set, and an arity equal to the formal run's length —
/// and propagates that set into the enclosing running set exactly as
/// [`spec_propagate`] says; `if` and application heads yield their
/// node kinds.
spec fn head_pin(
    p0: Parser,
    p1: Parser,
    fv0: Seq<(usize, Seq<char>)>,
    fv1: Seq<(usize, Seq<char>)>,
    v: SpecExpr,
) -> bool {
    p0.pos < p0.token_list@.len() ==> match view_tokens(p0.token_list@)[p0.pos as int] {
        SpecToken::Number(n) => v == SpecExpr::Int(n) && p1.pos == p0.pos + 1 && p1.env == p0.env
            && fv1 == fv0,
        SpecToken::Bool(b) => v == SpecExpr::Bool(b) && p1.pos == p0.pos + 1 && p1.env == p0.env
            && fv1 == fv0,
        SpecToken::Ident(s) => if is_primitive(s) {
            v == SpecExpr::Proc(prim_label_of(s), Seq::empty()) && p1.pos == p0.pos + 1 && p1.env
                == p0.env && fv1 == fv0
        } else {
            match env_lookup(p0.env@, s) {
                Some(hit) => {
                    let idx = p0.env@.frames[hit.0][hit.1].1;
                    &&& v == SpecExpr::Var(idx)
                    &&& p1.pos == p0.pos + 1
                    &&& p1.env@.frames =~~= p0.env@.frames
                    &&& p1.env@.vars =~= p0.env@.vars.update(
                        idx as int,
                        mark_var(
                            p0.env@.vars[idx as int],
                            0 < hit.0 && hit.0 + 1 < p0.env@.frames.len(),
                        ),
                    )
                    &&& (if spec_var_captured(p1.env@.vars[idx as int]) {
                        match env_find_fv(p1.env@, s) {
                            Some(off) => fv1 == fv_insert(fv0, (off, s)),
                            None => fv1 == fv0,
                        }
                    } else {
                        fv1 == fv0
                    })
                },
                None => false,
            }
        },
        SpecToken::OpenPar => {
            let ts = view_tokens(p0.token_list@);
            &&& (v is Proc || v is If || v is Call)
            &&& p1.pos > p0.pos + 1
            &&& (p0.pos + 1 < ts.len() && token_matches_word(ts[p0.pos + 1], "lambda"@) ==> (
            v matches SpecExpr::Proc(label, captured) && p1.proc_list@.len() >= 1 && label
                == lambda_label_of((p1.proc_list@.len() - 1) as nat) && p1.proc_list@.last()@.free_vars
                == captured && p1.proc_list@.last()@.free_num == captured.len()
                && p1.proc_list@.last()@.args_num as int == formals_run_end(ts, p0.pos + 3) - (
            p0.pos + 3) && fv1 == spec_propagate(p1.env@, captured, fv0, 0)))
            &&& (p0.pos + 1 < ts.len() && token_matches_word(ts[p0.pos + 1], "if"@) ==> (
            v matches SpecExpr::If { test, conseq, alter } && atom_pin(
                ts,
                p0.pos + 2,
                p0.env@,
                *test,
            )))
            &&& (p0.pos + 1 < ts.len() && !token_matches_word(ts[p0.pos + 1], "lambda"@)
                && !token_matches_word(ts[p0.pos + 1], "if"@) ==> (
            v matches SpecExpr::Call { proc, params } && atom_pin(
                ts,
                p0.pos + 1,
                p0.env@,
                *proc,
            )))
        },
        _ => false,
    }
}

/// A token at which an expression parse always succeeds, consuming
/// exactly that token: a literal, a boolean, or an identifier naming a
/// primitive or resolving in the environment.
spec fn atom_ok(ts: Seq<SpecToken>, env: SpecEnv, k: int) -> bool {
    0 <= k < ts.len() && match ts[k] {
        SpecToken::Number(_) => true,
        SpecToken::Bool(_) => true,
        SpecToken::Ident(s) => is_primitive(s) || env_lookup(env, s) is Some,
        _ => false,
    }
}

/// A parenthesized application whose callee and arguments are all
/// atomic: `(` at `pos`, atoms up to the closing paren at `close`.
spec fn flat_call_ok(ts: Seq<SpecToken>, env: SpecEnv, pos: int, close: int) -> bool {
    &&& 0 <= pos
    &&& pos + 2 <= close < ts.len()
    &&& ts[pos] is OpenPar
    &&& ts[close] is ClosePar
    &&& !token_matches_word(ts[pos + 1], "lambda"@)
    &&& !token_matches_word(ts[pos + 1], "if"@)
    &&& (forall|k: int| pos + 1 <= k < close ==> atom_ok(ts, env, k))
}

/// A conditional whose three sub-expressions are all atomic:
/// `( if a b c )` with the closing paren at `pos + 5`.
spec fn flat_if_ok(ts: Seq<SpecToken>, env: SpecEnv, pos: int) -> bool {
    &&& 0 <= pos
    &&& pos + 5 < ts.len()
    &&& ts[pos] is OpenPar
    &&& ts[pos + 1] matches SpecToken::Ident(s) && s == "if"@
    &&& atom_ok(ts, env, pos + 2)
    &&& atom_ok(ts, env, pos + 3)
    &&& atom_ok(ts, env, pos + 4)
    &&& ts[pos + 5] is ClosePar
}

/// Atomicity of a head depends on the environment only through its
/// frames.
proof fn lemma_atom_ok_frames(ts: Seq<SpecToken>, e1: SpecEnv, e2: SpecEnv, k: int)
    requires
        e1.frames =~~= e2.frames,
    ensures
        atom_ok(ts, e1, k) == atom_ok(ts, e2, k),
{
    if 0 <= k < ts.len() {
        match ts[k] {
            SpecToken::Ident(s) => {
                assert(env_lookup(e1, s) == env_lookup(e2, s));
            },
            _ => {},
        }
    }
}

/// When success is owed at an expression head: on every atomic
/// expression, and on every application or conditional form whose
/// sub-expressions are atomic.  (Deeper forms owe success through
/// their sub-forms, to which the same clauses apply in turn.)
spec fn head_success(p0: Parser, ok: bool) -> bool {
    let ts = view_tokens(p0.token_list@);
    &&& (atom_ok(ts, p0.env@, p0.pos as int) ==> ok)
    &&& ((exists|close: int| flat_call_ok(ts, p0.env@, p0.pos as int, close)) ==> ok)
    &&& (flat_if_ok(ts, p0.env@, p0.pos as int) ==> ok)
}

/// What a failed parse pins down about the error at the first token.
spec fn err_pin(p0: Parser, e: ParseError) -> bool {
    if p0.pos >= p0.token_list@.len() {
        e == ParseError::UnexpectedEnd
    } else {
        match view_tokens(p0.token_list@)[p0.pos as int] {
            SpecToken::ClosePar => e == ParseError::UnexpectedCloseParen,
            SpecToken::Period => e == ParseError::UnexpectedPeriod,
            SpecToken::Ident(s) => (!is_primitive(s) && env_lookup(p0.env@, s) is None) ==> (
            e matches ParseError::UndefinedVariable(nm) && nm@ == s),
            _ => true,
        }
    }
}

/// Appends the entry for one resolved free variable.
fn record_fv(fv: &mut FVs, p: (usize, String))
    requires
        fvs_wf(old(fv)@),
        old(fv)@.len() < max_len(),
        fv_entry_wf((p.0, p.1@)),
    ensures
        final(fv)@ == fv_insert(old(fv)@, (p.0, p.1@)),
        fvs_wf(final(fv)@),
        old(fv)@.is_prefix_of(final(fv)@),
        final(fv)@.len() <= old(fv)@.len() + 1,
{
    let ghost f0 = fv@;
    fv.insert(p);
    proof {
        assert(fv@ =~= fv_insert(f0, (p.0, p.1@)));
        if !fv_contains_name(f0, p.1@) {
            assert(fv@ =~= f0.push((p.0, p.1@)));
            assert forall|i: int| 0 <= i < fv@.len() implies fv_entry_wf(#[trigger] fv@[i]) by {
                if i < f0.len() {
                    assert(fv@[i] == f0[i]);
                    assert(fv_entry_wf(f0[i]));
                }
            }
            assert forall|i: int, j: int|
                0 <= i < j < fv@.len() implies (#[trigger] fv@[i]).1 != (#[trigger] fv@[j]).1 by {
                if j == fv@.len() - 1 {
                    assert(fv@[i] == f0[i]);
                    if fv@[i].1 == p.1@ {
                        lemma_fv_contains_witness(f0, i);
                        assert(false);
                    }
                } else {
                    assert(fv@[i] == f0[i]);
                    assert(fv@[j] == f0[j]);
                }
            }
        }
        assert(f0.is_prefix_of(fv@)) by {
            assert(f0 =~= fv@.subrange(0, f0.len() as int));
        }
    }
}

/// A position with the name witnesses containment.
proof fn lemma_fv_contains_witness(v: Seq<(usize, Seq<char>)>, i: int)
    requires
        0 <= i < v.len(),
    ensures
        fv_contains_name(v, v[i].1),
    decreases i,
{
    lemma_fv_index_nonneg(v, v[i].1, 0, i);
}

proof fn lemma_fv_index_nonneg(v: Seq<(usize, Seq<char>)>, name: Seq<char>, j: int, i: int)
    requires
        0 <= j <= i < v.len(),
        v[i].1 == name,
    ensures
        fv_index_of_from(v, name, j) >= 0,
    decreases i - j,
{
    if v[j].1 != name {
        lemma_fv_index_nonneg(v, name, j + 1, i);
    }
}

proof fn lemma_tokens_wf_concat(a: Seq<SpecToken>, b: Seq<SpecToken>)
    requires
        tokens_wf(a),
        tokens_wf(b),
    ensures
        tokens_wf(a + b),
{
    assert forall|i: int|
        0 <= i < (a + b).len() implies ((#[trigger] (a + b)[i]) matches SpecToken::Ident(s) ==> s
        != "("@ && s != ")"@) by {
        if i < a.len() {
            assert((a + b)[i] == a[i]);
        } else {
            assert((a + b)[i] == b[i - a.len()]);
        }
    }
}

proof fn lemma_lexed_tokens_wf_from(s: Seq<char>, i: int)
    ensures
        tokens_wf(crate::lexer::spec_tokens_from(s, i)),
    decreases s.len() - i,
{
    lemma_paren_words();
    if i < 0 || i >= s.len() {
    } else {
        let c = s[i];
        if crate::lexer::is_letter(c) || crate::lexer::is_op_char(c) {
            crate::lexer::lemma_ident_run_end_bounds(s, i + 1);
            let j = crate::lexer::ident_run_end(s, i + 1);
            let name = s.subrange(i, j);
            assert(name[0] == s[i]);
            assert(name != "("@ && name != ")"@);
            let tok = seq![SpecToken::Ident(name)];
            assert(tokens_wf(tok));
            if j >= s.len() {
                assert(crate::lexer::spec_tokens_from(s, i) == tok);
            } else {
                assert(tokens_wf(crate::lexer::delim_token(s[j])));
                lemma_lexed_tokens_wf_from(s, j + 1);
                lemma_tokens_wf_concat(tok, crate::lexer::delim_token(s[j]));
                lemma_tokens_wf_concat(
                    tok + crate::lexer::delim_token(s[j]),
                    crate::lexer::spec_tokens_from(s, j + 1),
                );
            }
        } else if crate::lexer::is_digit(c) {
            crate::lexer::lemma_digit_run_end_bounds(s, i + 1);
            let j = crate::lexer::digit_run_end(s, i + 1);
            let tok = seq![
                SpecToken::Number(
                    crate::lexer::wrap_i32(crate::lexer::digits_val(s.subrange(i, j))),
                ),
            ];
            assert(tokens_wf(tok));
            if j >= s.len() {
                assert(crate::lexer::spec_tokens_from(s, i) == tok);
            } else {
                assert(tokens_wf(crate::lexer::delim_token(s[j])));
                lemma_lexed_tokens_wf_from(s, j + 1);
                lemma_tokens_wf_concat(tok, crate::lexer::delim_token(s[j]));
                lemma_tokens_wf_concat(
                    tok + crate::lexer::delim_token(s[j]),
                    crate::lexer::spec_tokens_from(s, j + 1),
                );
            }
        } else {
            lemma_lexed_tokens_wf_from(s, i + 1);
            if c == '(' {
                lemma_tokens_wf_concat(
                    seq![SpecToken::OpenPar],
                    crate::lexer::spec_tokens_from(s, i + 1),
                );
            } else if c == ')' {
                lemma_tokens_wf_concat(
                    seq![SpecToken::ClosePar],
                    crate::lexer::spec_tokens_from(s, i + 1),
                );
            } else if c == '.' {
                lemma_tokens_wf_concat(
                    seq![SpecToken::Period],
                    crate::lexer::spec_tokens_from(s, i + 1),
                );
            }
        }
    }
}

/// Every token sequence the lexer produces is well formed in the sense
/// of [`tokens_wf`]: its identifier tokens never spell a bare
/// parenthesis.  Together with [`Parser::parse_program`], the open and
/// close parentheses of every successfully parsed lexed program are
/// equal in number.
pub proof fn lemma_lexed_tokens_wf(s: Seq<char>)
    ensures
        tokens_wf(crate::lexer::spec_tokens(s)),
{
    lemma_lexed_tokens_wf_from(s, 0);
}

proof fn lemma_count_one(ts: Seq<SpecToken>, a: int)
    requires
        0 <= a < ts.len(),
    ensures
        count_open_range(ts, a, a + 1) == (if ts[a] is OpenPar {
            1nat
        } else {
            0nat
        }),
        count_close_range(ts, a, a + 1) == (if ts[a] is ClosePar {
            1nat
        } else {
            0nat
        }),
{
    assert(count_open_range(ts, a + 1, a + 1) == 0);
    assert(count_close_range(ts, a + 1, a + 1) == 0);
}

proof fn lemma_balanced_join(ts: Seq<SpecToken>, a: int, b: int, c: int)
    requires
        0 <= a <= b <= c <= ts.len(),
        expr_balanced(ts, a, b),
        expr_balanced(ts, b, c),
    ensures
        expr_balanced(ts, a, c),
{
    if tokens_wf(ts) {
        lemma_count_split(ts, a, b, c);
    }
}

proof fn lemma_balanced_empty(ts: Seq<SpecToken>, a: int)
    ensures
        expr_balanced(ts, a, a),
{
}

impl Parser {
    /// A parser over `token_list`, with pristine state.  The token list
    /// must stay small enough for frame-slot byte offsets to fit in
    /// `usize`.
    pub fn new(token_list: Vec<Token>) -> (r: Parser)
        requires
            token_list@.len() <= max_len(),
        ensures
            parser_wf(r),
            r.token_list == token_list,
            r.pos == 0,
            r.env@.frames.len() == 1,
            r.env@.frames[0] =~= Seq::<(Seq<char>, usize)>::empty(),
            r.env@.vars.len() == 0,
            r.proc_list@.len() == 0,
            r.node_list@.len() == 0,
            parser_ir_size(r) == 0,
    {
        let r = Parser {
            token_list,
            pos: 0,
            env: Env::new(),
            proc_list: Vec::new(),
            node_list: Vec::new(),
        };
        proof {
            assert(view_lambdas(r.proc_list@) =~= Seq::<SpecLambda>::empty());
            assert(view_nodes(r.node_list@) =~= Seq::<SpecNode>::empty());
            assert(r.env@.frames.len() == 1);
            assert(r.env@.frames.last() =~= Seq::<(Seq<char>, usize)>::empty());
            assert(r.env@.frames.drop_last() =~= Seq::<Seq<(Seq<char>, usize)>>::empty());
            assert(frames_total(r.env@.frames.drop_last()) == 0);
            assert(frames_total(r.env@.frames) == 0);
            assert(env_wf(r.env@)) by {
                assert forall|i: int, j: int|
                    0 <= i < r.env@.frames.len() && 0 <= j
                        < r.env@.frames[i].len() implies #[trigger] frame_entry_wf(
                    r.env@,
                    i,
                    j,
                ) by {
                    assert(false);
                }
            }
        }
        r
    }

    /// Parses every top-level form, appending the produced nodes in
    /// order.  On success the whole token stream is consumed and, for
    /// well-formed token streams, its parentheses balance.
    pub fn parse_program(&mut self) -> (r: Result<(), ParseError>)
        requires
            parser_wf(*old(self)),
            old(self).env@.frames.len() == 1,
        ensures
            parser_wf(*final(self)),
            final(self).token_list == old(self).token_list,
            old(self).pos <= final(self).pos <= final(self).token_list@.len(),
            old(self).node_list@.is_prefix_of(final(self).node_list@),
            r is Ok ==> final(self).pos == final(self).token_list@.len(),
            r is Ok ==> final(self).env@.frames.len() == 1,
            r is Ok ==> expr_balanced(
                view_tokens(final(self).token_list@),
                old(self).pos as int,
                final(self).token_list@.len() as int,
            ),
            r is Ok ==> old(self).env@.frames[0].is_prefix_of(final(self).env@.frames[0]),
            old(self).pos >= old(self).token_list@.len() ==> r is Ok,
            ({
                let ts = view_tokens(final(self).token_list@);
                (old(self).pos == 0 && old(self).node_list@.len() == 0 && ts.len() == 1)
                    ==> (ts[0] matches SpecToken::Number(num) ==> r is Ok && view_nodes(
                    final(self).node_list@,
                ) =~= seq![SpecNode::Expr(SpecExpr::Int(num))])
            }),
    {
        let ghost p0 = *self;
        let ghost ts = view_tokens(self.token_list@);
        proof {
            assert(p0.node_list@.is_prefix_of(p0.node_list@)) by {
                assert(p0.node_list@ =~= p0.node_list@.subrange(0, p0.node_list@.len() as int));
            }
            assert(p0.env@.frames[0].is_prefix_of(p0.env@.frames[0])) by {
                assert(p0.env@.frames[0] =~= p0.env@.frames[0].subrange(
                    0,
                    p0.env@.frames[0].len() as int,
                ));
            }
        }
        while self.pos < self.token_list.len()
            invariant
                p0 == *old(self),
                parser_wf(*self),
                self.token_list == p0.token_list,
                ts == view_tokens(self.token_list@),
                self.env@.frames.len() == 1,
                p0.pos <= self.pos <= self.token_list@.len(),
                p0.node_list@.is_prefix_of(self.node_list@),
                p0.env@.frames[0].is_prefix_of(self.env@.frames[0]),
                expr_balanced(ts, p0.pos as int, self.pos as int),
                (p0.pos == 0 && p0.node_list@.len() == 0 && ts.len() == 1) ==> ((self.pos == 0
                    && self.node_list@.len() == 0) || (self.pos == 1 && (
                ts[0] matches SpecToken::Number(num) ==> view_nodes(self.node_list@) =~= seq![
                    SpecNode::Expr(SpecExpr::Int(num)),
                ]))),
            decreases self.token_list@.len() - self.pos,
        {
            let ghost pa = *self;
            let node = match self.parse_global_expr() {
                Ok(n) => n,
                Err(e) => {
                    return Err(e);
                },
            };
            let ghost pb = *self;
            let ghost nv = view_node(node);
            self.node_list.push(node);
            proof {
                assert(view_nodes(self.node_list@) =~= view_nodes(pb.node_list@).push(nv));
                lemma_nodes_size_push(view_nodes(pb.node_list@), nv);
                assert(parser_ir_size(*self) == parser_ir_size(pb) + node_size(nv));
                assert(nodes_wf(view_nodes(self.node_list@), self.env@.vars.len())) by {
                    assert forall|i: int|
                        0 <= i < view_nodes(self.node_list@).len() implies node_wf(
                        #[trigger] view_nodes(self.node_list@)[i],
                        self.env@.vars.len(),
                    ) by {
                        if i < pb.node_list@.len() {
                            assert(view_nodes(self.node_list@)[i] == view_nodes(
                                pb.node_list@,
                            )[i]);
                        } else {
                            assert(view_nodes(self.node_list@)[i] == nv);
                        }
                    }
                }
                assert(pa.node_list@.is_prefix_of(self.node_list@)) by {
                    assert(pa.node_list@ =~= self.node_list@.subrange(
                        0,
                        pa.node_list@.len() as int,
                    ));
                }
                assert(p0.node_list@.is_prefix_of(self.node_list@)) by {
                    assert(p0.node_list@ =~= self.node_list@.subrange(
                        0,
                        p0.node_list@.len() as int,
                    ));
                }
                assert(p0.env@.frames[0].is_prefix_of(self.env@.frames[0])) by {
                    assert(p0.env@.frames[0] =~= self.env@.frames[0].subrange(
                        0,
                        p0.env@.frames[0].len() as int,
                    ));
                }
                lemma_balanced_join(ts, p0.pos as int, pa.pos as int, self.pos as int);
                if p0.pos == 0 && p0.node_list@.len() == 0 && ts.len() == 1 {
                    assert(pa.pos == 0);
                    assert(pa.node_list@.len() == 0);
                    assert(pb.node_list == pa.node_list);
                    assert(view_nodes(pb.node_list@) =~= Seq::<SpecNode>::empty());
                    match ts[0] {
                        SpecToken::Number(num) => {
                            assert(view_tokens(pb.token_list@) == ts);
                            assert(view_tokens(pb.token_list@)[pa.pos as int]
                                matches SpecToken::Number(n2) && n2 == num);
                            assert(nv == SpecNode::Expr(SpecExpr::Int(num)));
                            assert(view_nodes(self.node_list@) =~= seq![
                                SpecNode::Expr(SpecExpr::Int(num)),
                            ]);
                        },
                        _ => {},
                    }
                }
            }
        }
        Ok(())
    }

    /// Parses one top-level form: a global definition or an expression.
    fn parse_global_expr(&mut self) -> (r: Result<Node, ParseError>)
        requires
            parser_wf(*old(self)),
            old(self).env@.frames.len() == 1,
            old(self).pos < old(self).token_list@.len(),
        ensures
            step_any(*old(self), *final(self)),
            r matches Result::Ok(n) ==> ({
                &&& old(self).pos < final(self).pos
                &&& final(self).env@.frames.len() == 1
                &&& node_wf(view_node(n), final(self).env@.vars.len())
                &&& parser_ir_size(*final(self)) + node_size(view_node(n)) <= parser_ir_size(
                    *old(self),
                ) + (final(self).pos - old(self).pos)
                &&& expr_balanced(
                    view_tokens(final(self).token_list@),
                    old(self).pos as int,
                    final(self).pos as int,
                )
                &&& (view_tokens(final(self).token_list@)[old(self).pos as int]
                    matches SpecToken::Number(num) ==> view_node(n) == SpecNode::Expr(
                    SpecExpr::Int(num),
                ) && final(self).pos == old(self).pos + 1)
                &&& (!token_matches_word(
                    view_tokens(final(self).token_list@)[old(self).pos as int],
                    "("@,
                ) ==> view_node(n) is Expr)
                &&& (token_matches_word(
                    view_tokens(final(self).token_list@)[old(self).pos as int],
                    "("@,
                ) && old(self).pos + 1 < final(self).token_list@.len() && token_matches_word(
                    view_tokens(final(self).token_list@)[old(self).pos as int + 1],
                    "define"@,
                ) ==> view_node(n) is Defn)
                &&& old(self).env@.frames[0].is_prefix_of(final(self).env@.frames[0])
            }),
            ({
                let ts = view_tokens(old(self).token_list@);
                (match ts[old(self).pos as int] {
                    SpecToken::Number(_) => true,
                    SpecToken::Bool(_) => true,
                    SpecToken::Ident(s) => s != "("@ && (is_primitive(s) || env_lookup(
                        old(self).env@,
                        s,
                    ) is Some),
                    _ => false,
                }) ==> r is Ok
            }),
            ({
                let ts = view_tokens(old(self).token_list@);
                &&& ((exists|close: int|
                    flat_call_ok(ts, old(self).env@, old(self).pos as int, close))
                    && !token_matches_word(ts[old(self).pos as int + 1], "define"@) ==> r is Ok)
                &&& (flat_if_ok(ts, old(self).env@, old(self).pos as int) ==> r is Ok)
            }),
        decreases self.token_list@.len() - self.pos, 2int,
    {
        let ghost p0 = *self;
        let ghost ts = view_tokens(self.token_list@);
        if self.expect("(") {
            if self.expect("define") {
                let ghost pa = *self;
                let d = match self.parse_defn_global() {
                    Ok(d) => d,
                    Err(e) => {
                        proof {
                            reveal_strlit("define");
                            reveal_strlit("if");
                            assert("define"@.len() == 6 && "if"@.len() == 2);
                        }
                        return Err(e);
                    },
                };
                proof {
                    assert(old(self).pos < self.pos);
                    if tokens_wf(ts) {
                        lemma_match_open(ts[p0.pos as int]);
                        lemma_count_one(ts, p0.pos as int);
                        assert(token_matches_word(ts[p0.pos as int + 1], "define"@));
                        reveal_strlit("define");
                        lemma_match_word(ts[p0.pos as int + 1], "define"@);
                        lemma_count_one(ts, p0.pos as int + 1);
                        lemma_count_split(ts, p0.pos as int, p0.pos as int + 1, pa.pos as int);
                        lemma_count_split(ts, p0.pos as int, pa.pos as int, self.pos as int);
                    }
                }
                return Ok(Node::Defn(d));
            } else {
                self.pos = self.pos - 1;
            }
        }
        let ghost pb = *self;
        proof {
            assert(pb.pos == p0.pos);
            assert(parser_wf(pb));
        }
        let mut tmp = FVs::new();
        proof {
            assert(fvs_wf(tmp@));
        }
        let e = match self.parse_expr(&mut tmp) {
            Ok(e) => e,
            Err(er) => {
                return Err(er);
            },
        };
        Ok(Node::Expr(e))
    }

    /// Parses one lambda-body form: a local definition or an expression.
    fn parse_local_expr(&mut self, fv: &mut FVs) -> (r: Result<Node, ParseError>)
        requires
            parser_wf(*old(self)),
            old(self).env@.frames.len() >= 2,
            fvs_wf(old(fv)@),
            old(fv)@.len() + old(self).token_list@.len() - old(self).pos <= max_len(),
        ensures
            step_any(*old(self), *final(self)),
            fv_step(old(fv)@, final(fv)@, final(self).pos - old(self).pos),
            r matches Result::Ok(n) ==> ({
                &&& old(self).pos < final(self).pos
                &&& frames_extend(old(self).env@.frames, final(self).env@.frames)
                &&& node_wf(view_node(n), final(self).env@.vars.len())
                &&& parser_ir_size(*final(self)) + node_size(view_node(n)) <= parser_ir_size(
                    *old(self),
                ) + (final(self).pos - old(self).pos)
                &&& expr_balanced(
                    view_tokens(final(self).token_list@),
                    old(self).pos as int,
                    final(self).pos as int,
                )
                &&& (!token_matches_word(
                    view_tokens(final(self).token_list@)[old(self).pos as int],
                    "("@,
                ) ==> view_node(n) is Expr)
                &&& (token_matches_word(
                    view_tokens(final(self).token_list@)[old(self).pos as int],
                    "("@,
                ) && old(self).pos + 1 < final(self).token_list@.len() && token_matches_word(
                    view_tokens(final(self).token_list@)[old(self).pos as int + 1],
                    "define"@,
                ) ==> view_node(n) is Defn)
            }),
            ({
                let ts = view_tokens(old(self).token_list@);
                (old(self).pos < old(self).token_list@.len() && match ts[old(self).pos as int] {
                    SpecToken::Number(_) => true,
                    SpecToken::Bool(_) => true,
                    SpecToken::Ident(s) => s != "("@ && (is_primitive(s) || env_lookup(
                        old(self).env@,
                        s,
                    ) is Some),
                    _ => false,
                }) ==> r is Ok
            }),
            ({
                let ts = view_tokens(old(self).token_list@);
                &&& ((exists|close: int|
                    flat_call_ok(ts, old(self).env@, old(self).pos as int, close))
                    && !token_matches_word(ts[old(self).pos as int + 1], "define"@) ==> r is Ok)
                &&& (flat_if_ok(ts, old(self).env@, old(self).pos as int) ==> r is Ok)
            }),
        decreases self.token_list@.len() - self.pos, 2int,
    {
        let ghost p0 = *self;
        let ghost fv0 = fv@;
        let ghost ts = view_tokens(self.token_list@);
        if self.expect("(") {
            if self.expect("define") {
                let ghost pa = *self;
                let d = match self.parse_defn_local(fv) {
                    Ok(d) => d,
                    Err(e) => {
                        proof {
                            reveal_strlit("define");
                            reveal_strlit("if");
                            assert("define"@.len() == 6 && "if"@.len() == 2);
                        }
                        return Err(e);
                    },
                };
                proof {
                    if tokens_wf(ts) {
                        lemma_match_open(ts[p0.pos as int]);
                        lemma_count_one(ts, p0.pos as int);
                        assert(token_matches_word(ts[p0.pos as int + 1], "define"@));
                        reveal_strlit("define");
                        lemma_match_word(ts[p0.pos as int + 1], "define"@);
                        lemma_count_one(ts, p0.pos as int + 1);
                        lemma_count_split(ts, p0.pos as int, p0.pos as int + 1, pa.pos as int);
                        lemma_count_split(ts, p0.pos as int, pa.pos as int, self.pos as int);
                    }
                    assert(frames_extend(p0.env@.frames, self.env@.frames));
                }
                return Ok(Node::Defn(d));
            } else {
                self.pos = self.pos - 1;
            }
        }
        let e = match self.parse_expr(fv) {
            Ok(e) => e,
            Err(er) => {
                return Err(er);
            },
        };
        Ok(Node::Expr(e))
    }

    /// Parses `name expr )` after `( define` at the top level and
    /// installs the global binding before its right-hand side is
    /// parsed, so the right-hand side may reference the name
    /// textually: the contract pins the binding's arena index at or
    /// below the arena length on entry, ahead of every binding the
    /// right-hand side creates, and pins the global frame's change
    /// exactly (one appended entry, or none on a redefinition).
    fn parse_defn_global(&mut self) -> (r: Result<Defn, ParseError>)
        requires
            parser_wf(*old(self)),
            old(self).env@.frames.len() == 1,
        ensures
            step_any(*old(self), *final(self)),
            r matches Result::Ok(d) ==> ({
                &&& old(self).pos < final(self).pos
                &&& final(self).env@.frames.len() == 1
                &&& d.var < final(self).env@.vars.len()
                &&& expr_wf(view_expr(d.expr), final(self).env@.vars.len())
                &&& parser_ir_size(*final(self)) + 1 + expr_size(view_expr(d.expr))
                    <= parser_ir_size(*old(self)) + (final(self).pos - old(self).pos)
                &&& defn_balanced(
                    view_tokens(final(self).token_list@),
                    old(self).pos as int,
                    final(self).pos as int,
                )
                &&& (view_tokens(final(self).token_list@)[old(self).pos as int]
                    matches SpecToken::Ident(s) ==> final(self).env@.vars[d.var as int] is Global
                    && spec_var_name(final(self).env@.vars[d.var as int]) == s)
                &&& old(self).pos < old(self).token_list@.len()
                &&& view_tokens(final(self).token_list@)[old(self).pos as int] is Ident
                &&& d.var as int <= old(self).env@.vars.len()
                &&& (view_tokens(final(self).token_list@)[old(self).pos as int]
                    matches SpecToken::Ident(s) ==> (if frame_index_of(
                    old(self).env@.frames[0],
                    s,
                ) >= 0 {
                    final(self).env@.frames =~~= old(self).env@.frames && old(
                        self,
                    ).env@.frames[0][frame_index_of(old(self).env@.frames[0], s)].1 == d.var
                } else {
                    final(self).env@.frames =~~= old(self).env@.frames.update(
                        0,
                        old(self).env@.frames[0].push((s, d.var)),
                    ) && d.var as int == old(self).env@.vars.len()
                }))
            }),
            r matches Result::Err(e) ==> (if old(self).pos >= old(self).token_list@.len() {
                e == ParseError::UnexpectedEnd
            } else if !(view_tokens(old(self).token_list@)[old(self).pos as int] is Ident) {
                e == ParseError::ExpectedIdentifier
            } else {
                true
            }),
        decreases self.token_list@.len() - self.pos, 1int,
    {
        let ghost p0 = *self;
        let ghost ts = view_tokens(self.token_list@);
        if self.pos >= self.token_list.len() {
            return Err(ParseError::UnexpectedEnd);
        }
        let name = match &self.token_list[self.pos] {
            Token::Ident(s) => s.clone(),
            _ => {
                return Err(ParseError::ExpectedIdentifier);
            },
        };
        self.pos = self.pos + 1;
        proof {
            assert(ts[p0.pos as int] == SpecToken::Ident(name@));
        }
        let ghost e0 = self.env@;
        let idx = self.env.push_global(name);
        proof {
            if frame_index_of(e0.frames[0], name@) >= 0 {
                let j = frame_index_of(e0.frames[0], name@);
                lemma_frame_index_in_range(e0.frames[0], name@, 0);
                assert(frame_entry_wf(e0, 0, j));
                assert(idx < self.env@.vars.len());
            } else {
                assert(e0.vars.len() <= usize::MAX);
                lemma_env_wf_push_global(e0, self.env@, name@);
                lemma_frames_total_update0(
                    e0.frames,
                    e0.frames[0].push((name@, e0.vars.len() as usize)),
                );
                lemma_lambdas_wf_mono(
                    view_lambdas(self.proc_list@),
                    e0.vars.len(),
                    self.env@.vars.len(),
                );
                lemma_nodes_wf_mono(
                    view_nodes(self.node_list@),
                    e0.vars.len(),
                    self.env@.vars.len(),
                );
                assert(idx < self.env@.vars.len());
            }
            assert(parser_wf(*self));
        }
        let ghost pa = *self;
        let mut tmp = FVs::new();
        let expr = match self.parse_expr(&mut tmp) {
            Ok(e) => e,
            Err(er) => {
                return Err(er);
            },
        };
        let ghost pb = *self;
        match self.consume(")") {
            Ok(_) => {},
            Err(er) => {
                return Err(er);
            },
        }
        proof {
            assert(idx < self.env@.vars.len());
            lemma_expr_wf_mono(view_expr(expr), pb.env@.vars.len(), self.env@.vars.len());
            if tokens_wf(ts) {
                lemma_count_one(ts, p0.pos as int);
                lemma_match_close(ts[pb.pos as int]);
                lemma_count_one(ts, pb.pos as int);
                lemma_count_split(ts, p0.pos as int, p0.pos as int + 1, pb.pos as int);
                lemma_count_split(ts, p0.pos as int, pb.pos as int, self.pos as int);
            }
            // the binding installed for the head identifier keeps its name
            let j = if frame_index_of(e0.frames[0], name@) >= 0 {
                frame_index_of(e0.frames[0], name@)
            } else {
                e0.frames[0].len() as int
            };
            if frame_index_of(e0.frames[0], name@) >= 0 {
                lemma_frame_index_in_range(e0.frames[0], name@, 0);
            }
            assert(pa.env@.frames[0][j] == (name@, idx));
            assert(self.env@.frames =~~= pa.env@.frames);
            assert(self.env@.frames[0][j] == (name@, idx));
            assert(frame_entry_wf(self.env@, 0, j));
            assert(e0 == p0.env@);
            if frame_index_of(e0.frames[0], name@) >= 0 {
                assert(pa.env@.frames =~~= e0.frames);
                assert(self.env@.frames =~~= p0.env@.frames);
            } else {
                assert(pa.env@.frames =~~= e0.frames.update(
                    0,
                    e0.frames[0].push((name@, idx)),
                ));
                assert(self.env@.frames =~~= p0.env@.frames.update(
                    0,
                    p0.env@.frames[0].push((name@, idx)),
                ));
            }
        }
        Ok(Defn { var: idx, expr })
    }

    /// Parses `name expr )` after `( define` inside a lambda body and
    /// installs the local binding before its right-hand side is
    /// parsed: the contract pins the binding's arena index to the
    /// arena length on entry — ahead of every binding the right-hand
    /// side creates — and pins the innermost frame's change to exactly
    /// one appended entry at the next slot offset `8 * (count + 1)`.
    fn parse_defn_local(&mut self, fv: &mut FVs) -> (r: Result<Defn, ParseError>)
        requires
            parser_wf(*old(self)),
            old(self).env@.frames.len() >= 2,
            fvs_wf(old(fv)@),
            old(fv)@.len() + old(self).token_list@.len() - old(self).pos <= max_len(),
        ensures
            step_any(*old(self), *final(self)),
            fv_step(old(fv)@, final(fv)@, final(self).pos - old(self).pos),
            r matches Result::Ok(d) ==> ({
                &&& old(self).pos < final(self).pos
                &&& frames_extend(old(self).env@.frames, final(self).env@.frames)
                &&& d.var < final(self).env@.vars.len()
                &&& expr_wf(view_expr(d.expr), final(self).env@.vars.len())
                &&& parser_ir_size(*final(self)) + 1 + expr_size(view_expr(d.expr))
                    <= parser_ir_size(*old(self)) + (final(self).pos - old(self).pos)
                &&& defn_balanced(
                    view_tokens(final(self).token_list@),
                    old(self).pos as int,
                    final(self).pos as int,
                )
                &&& (view_tokens(final(self).token_list@)[old(self).pos as int]
                    matches SpecToken::Ident(s) ==> final(self).env@.vars[d.var as int] is Local
                    && spec_var_name(final(self).env@.vars[d.var as int]) == s)
                &&& old(self).pos < old(self).token_list@.len()
                &&& view_tokens(final(self).token_list@)[old(self).pos as int] is Ident
                &&& d.var as int == old(self).env@.vars.len()
                &&& (view_tokens(final(self).token_list@)[old(self).pos as int]
                    matches SpecToken::Ident(s) ==> final(self).env@.frames =~~= old(
                    self,
                ).env@.frames.update(
                    old(self).env@.frames.len() - 1,
                    old(self).env@.frames.last().push((s, d.var)),
                ) && spec_var_offset(final(self).env@.vars[d.var as int]) as int == 8 * (
                old(self).env@.frames.last().len() + 1))
            }),
            r matches Result::Err(e) ==> (if old(self).pos >= old(self).token_list@.len() {
                e == ParseError::UnexpectedEnd
            } else if !(view_tokens(old(self).token_list@)[old(self).pos as int] is Ident) {
                e == ParseError::ExpectedIdentifier
            } else {
                true
            }),
        decreases self.token_list@.len() - self.pos, 1int,
    {
        let ghost p0 = *self;
        let ghost fv0 = fv@;
        let ghost ts = view_tokens(self.token_list@);
        if self.pos >= self.token_list.len() {
            proof {
                lemma_fv_step_refl(fv@, 0);
            }
            return Err(ParseError::UnexpectedEnd);
        }
        let name = match &self.token_list[self.pos] {
            Token::Ident(s) => s.clone(),
            _ => {
                proof {
                    lemma_fv_step_refl(fv@, 0);
                }
                return Err(ParseError::ExpectedIdentifier);
            },
        };
        self.pos = self.pos + 1;
        proof {
            assert(ts[p0.pos as int] == SpecToken::Ident(name@));
        }
        let ghost e0 = self.env@;
        proof {
            lemma_frames_total_bound(e0.frames, e0.frames.len() - 1);
            assert(e0.frames.last().len() + 1 <= max_len());
        }
        let idx = self.env.push_local(name);
        proof {
            assert(e0.vars.len() <= usize::MAX);
            lemma_env_wf_push_local(e0, self.env@, name@);
            lemma_frames_total_update_last(
                e0.frames,
                e0.frames.last().push((name@, e0.vars.len() as usize)),
            );
            lemma_lambdas_wf_mono(
                view_lambdas(self.proc_list@),
                e0.vars.len(),
                self.env@.vars.len(),
            );
            lemma_nodes_wf_mono(view_nodes(self.node_list@), e0.vars.len(), self.env@.vars.len());
            assert(parser_wf(*self));
            assert(frames_extend(p0.env@.frames, self.env@.frames)) by {
                assert(e0.frames.last().is_prefix_of(self.env@.frames.last())) by {
                    assert(e0.frames.last() =~= self.env@.frames.last().subrange(
                        0,
                        e0.frames.last().len() as int,
                    ));
                }
            }
        }
        let ghost pa = *self;
        let expr = match self.parse_expr(fv) {
            Ok(e) => e,
            Err(er) => {
                proof {
                    lemma_fv_step_refl(fv0, pa.pos - p0.pos);
                    lemma_fv_step_trans(fv0, fv0, fv@, pa.pos - p0.pos, self.pos - pa.pos);
                }
                return Err(er);
            },
        };
        let ghost pb = *self;
        let ghost fvb = fv@;
        match self.consume(")") {
            Ok(_) => {},
            Err(er) => {
                proof {
                    lemma_fv_step_refl(fv0, pa.pos - p0.pos);
                    lemma_fv_step_trans(fv0, fv0, fv@, pa.pos - p0.pos, pb.pos - pa.pos);
                }
                return Err(er);
            },
        }
        proof {
            lemma_fv_step_refl(fv0, pa.pos - p0.pos);
            lemma_fv_step_trans(fv0, fv0, fvb, pa.pos - p0.pos, pb.pos - pa.pos);
            assert(fv_step(fv0, fv@, self.pos - p0.pos));
            assert(idx < self.env@.vars.len());
            lemma_expr_wf_mono(view_expr(expr), pb.env@.vars.len(), self.env@.vars.len());
            lemma_frames_extend_trans(p0.env@.frames, pa.env@.frames, self.env@.frames);
            // the binding installed for the head identifier keeps its name
            let li = pa.env@.frames.len() - 1;
            let j = e0.frames.last().len() as int;
            assert(pa.env@.frames[li][j] == (name@, idx));
            assert(self.env@.frames =~~= pa.env@.frames);
            assert(self.env@.frames[li][j] == (name@, idx));
            assert(frame_entry_wf(self.env@, li, j));
            assert(e0 == p0.env@);
            assert(self.env@.frames =~~= p0.env@.frames.update(
                p0.env@.frames.len() - 1,
                p0.env@.frames.last().push((name@, idx)),
            ));
            if tokens_wf(ts) {
                lemma_count_one(ts, p0.pos as int);
                lemma_match_close(ts[pb.pos as int]);
                lemma_count_one(ts, pb.pos as int);
                lemma_count_split(ts, p0.pos as int, p0.pos as int + 1, pb.pos as int);
                lemma_count_split(ts, p0.pos as int, pb.pos as int, self.pos as int);
            }
        }
        Ok(Defn { var: idx, expr })
    }

    fn peek_is_ident(&self) -> (r: bool)
        ensures
            r == (self.pos < self.token_list@.len() && view_tokens(
                self.token_list@,
            )[self.pos as int] is Ident),
    {
        if self.pos < self.token_list.len() {
            match &self.token_list[self.pos] {
                Token::Ident(_) => true,
                _ => false,
            }
        } else {
            false
        }
    }

    fn peek_is_close(&self) -> (r: bool)
        ensures
            r == (self.pos < self.token_list@.len() && view_tokens(
                self.token_list@,
            )[self.pos as int] is ClosePar),
    {
        if self.pos < self.token_list.len() {
            match &self.token_list[self.pos] {
                Token::ClosePar => true,
                _ => false,
            }
        } else {
            false
        }
    }

    /// Advances past the token at the cursor when it is the word `name`.
    fn expect(&mut self, name: &str) -> (r: bool)
        ensures
            final(self).token_list == old(self).token_list,
            final(self).env == old(self).env,
            final(self).proc_list == old(self).proc_list,
            final(self).node_list == old(self).node_list,
            r == (old(self).pos < old(self).token_list@.len() && token_matches_word(
                view_tokens(old(self).token_list@)[old(self).pos as int],
                name@,
            )),
            final(self).pos as int == old(self).pos + (if r {
                1int
            } else {
                0int
            }),
    {
        if self.pos >= self.token_list.len() {
            return false;
        }
        let matched = match &self.token_list[self.pos] {
            Token::Ident(s) => str_eq(s.as_str(), name),
            Token::OpenPar => str_eq("(", name),
            Token::ClosePar => str_eq(")", name),
            _ => false,
        };
        if matched {
            self.pos = self.pos + 1;
        }
        matched
    }

    /// Advances past the token at the cursor, which must be the word
    /// `name`; a mismatch aborts the parse.
    fn consume(&mut self, name: &str) -> (r: Result<(), ParseError>)
        ensures
            final(self).token_list == old(self).token_list,
            final(self).env == old(self).env,
            final(self).proc_list == old(self).proc_list,
            final(self).node_list == old(self).node_list,
            ({
                let ok = old(self).pos < old(self).token_list@.len() && token_matches_word(
                    view_tokens(old(self).token_list@)[old(self).pos as int],
                    name@,
                );
                match r {
                    Result::Ok(u) => ok && final(self).pos as int == old(self).pos + 1,
                    Result::Err(e) => !ok && final(self).pos == old(self).pos && (if old(self).pos
                        >= old(self).token_list@.len() {
                        e == ParseError::UnexpectedEnd
                    } else {
                        e matches ParseError::Expected(s) && s@ == name@
                    }),
                }
            }),
    {
        if self.pos >= self.token_list.len() {
            return Err(ParseError::UnexpectedEnd);
        }
        let matched = match &self.token_list[self.pos] {
            Token::Ident(s) => str_eq(s.as_str(), name),
            Token::OpenPar => str_eq("(", name),
            Token::ClosePar => str_eq(")", name),
            _ => false,
        };
        if matched {
            self.pos = self.pos + 1;
            Ok(())
        } else {
            Err(ParseError::Expected(name.to_owned()))
        }
    }

    /// Parses one expression: a literal, a variable or primitive
    /// reference, or a parenthesized `lambda`, `if` or application form.
    #[verifier::rlimit(100)]
    fn parse_expr(&mut self, fv: &mut FVs) -> (r: Result<Expr, ParseError>)
        requires
            parser_wf(*old(self)),
            fvs_wf(old(fv)@),
            old(fv)@.len() + old(self).token_list@.len() - old(self).pos <= max_len(),
        ensures
            step_any(*old(self), *final(self)),
            fv_step(old(fv)@, final(fv)@, final(self).pos - old(self).pos),
            r matches Result::Ok(e) ==> ({
                &&& old(self).pos < final(self).pos
                &&& final(self).env@.frames =~~= old(self).env@.frames
                &&& expr_wf(view_expr(e), final(self).env@.vars.len())
                &&& parser_ir_size(*final(self)) + expr_size(view_expr(e)) <= parser_ir_size(
                    *old(self),
                ) + (final(self).pos - old(self).pos)
                &&& expr_balanced(
                    view_tokens(final(self).token_list@),
                    old(self).pos as int,
                    final(self).pos as int,
                )
                &&& head_pin(*old(self), *final(self), old(fv)@, final(fv)@, view_expr(e))
            }),
            r matches Result::Err(e) ==> err_pin(*old(self), e),
            head_success(*old(self), r is Ok),
        decreases self.token_list@.len() - self.pos, 0int,
    {
        let ghost p0 = *self;
        let ghost fv0 = fv@;
        let ghost ts = view_tokens(self.token_list@);
        if self.pos >= self.token_list.len() {
            proof {
                lemma_step_any_refl(p0);
                lemma_fv_step_refl(fv0, 0);
            }
            return Err(ParseError::UnexpectedEnd);
        }
        let cur = &self.token_list[self.pos];
        match cur {
            Token::Bool(b) => {
                let val: bool = *b;
                self.pos = self.pos + 1;
                proof {
                    assert(parser_wf(*self));
                    lemma_fv_step_refl(fv0, 1);
                    lemma_frames_extend_refl(self.env@.frames);
                    if tokens_wf(ts) {
                        lemma_count_one(ts, p0.pos as int);
                    }
                }
                Ok(Expr::Bool(val))
            },
            Token::Number(n) => {
                let val: i32 = *n;
                self.pos = self.pos + 1;
                proof {
                    assert(parser_wf(*self));
                    lemma_fv_step_refl(fv0, 1);
                    lemma_frames_extend_refl(self.env@.frames);
                    if tokens_wf(ts) {
                        lemma_count_one(ts, p0.pos as int);
                    }
                }
                Ok(Expr::Int(val))
            },
            Token::Ident(ident) => {
                let name = ident.clone();
                self.pos = self.pos + 1;
                proof {
                    assert(parser_wf(*self));
                    assert(ts[p0.pos as int] == SpecToken::Ident(name@));
                }
                let prim: Option<&str> = if str_eq(name.as_str(), "=") {
                    Some("equal")
                } else if str_eq(name.as_str(), "!=") {
                    Some("neq")
                } else if str_eq(name.as_str(), "<") {
                    Some("lth")
                } else if str_eq(name.as_str(), "<=") {
                    Some("leq")
                } else if str_eq(name.as_str(), ">") {
                    Some("gth")
                } else if str_eq(name.as_str(), ">=") {
                    Some("geq")
                } else if str_eq(name.as_str(), "+") {
                    Some("add")
                } else if str_eq(name.as_str(), "-") {
                    Some("sub")
                } else if str_eq(name.as_str(), "*") {
                    Some("mul")
                } else if str_eq(name.as_str(), "/") {
                    Some("div")
                } else if str_eq(name.as_str(), "cons") {
                    Some("cons")
                } else if str_eq(name.as_str(), "car") {
                    Some("car")
                } else if str_eq(name.as_str(), "cdr") {
                    Some("cdr")
                } else if str_eq(name.as_str(), "rem") {
                    Some("rem")
                } else {
                    None
                };
                match prim {
                    Some(lbl) => {
                        proof {
                            lemma_prim_label_table();
                            assert(is_primitive(name@));
                            assert(prim_label_of(name@) == lbl@);
                            lemma_fv_step_refl(fv0, 1);
                            lemma_frames_extend_refl(self.env@.frames);
                            if tokens_wf(ts) {
                                lemma_count_one(ts, p0.pos as int);
                            }
                        }
                        let f = FVs::new();
                        let e = Expr::Proc(lbl.to_owned(), f);
                        proof {
                            assert(view_expr(e) == SpecExpr::Proc(lbl@, Seq::empty()));
                        }
                        Ok(e)
                    },
                    None => {
                        proof {
                            assert(!is_primitive(name@));
                        }
                        let ghost eb = self.env@;
                        match self.env.find(name.as_str()) {
                            Some(idx) => {
                                proof {
                                    lemma_env_lookup_in_range(eb.frames, name@, eb.frames.len() - 1);
                                    let hit = env_lookup(eb, name@).unwrap();
                                    assert(frame_entry_wf(eb, hit.0, hit.1));
                                    assert(idx < self.env@.vars.len());
                                    assert(parser_wf(*self));
                                }
                                let is_captured = match &self.env.vars[idx] {
                                    Var::Local(_, _, c) => *c,
                                    Var::Global(_) => false,
                                };
                                if is_captured {
                                    match self.env.find_fv(name.as_str()) {
                                        Some(p) => {
                                            proof {
                                                lemma_env_find_fv_wf(
                                                    self.env@,
                                                    name@,
                                                    self.env@.frames.len() - 1,
                                                );
                                                assert(fv_entry_wf((p.0, p.1@)));
                                            }
                                            record_fv(fv, p);
                                        },
                                        None => {
                                            proof {
                                                lemma_fv_step_refl(fv0, 1);
                                            }
                                        },
                                    }
                                } else {
                                    proof {
                                        lemma_fv_step_refl(fv0, 1);
                                    }
                                }
                                proof {
                                    assert(fv_step(fv0, fv@, 1));
                                    lemma_frames_extend_refl(self.env@.frames);
                                    if tokens_wf(ts) {
                                        lemma_count_one(ts, p0.pos as int);
                                    }
                                }
                                Ok(Expr::Var(idx))
                            },
                            None => {
                                proof {
                                    lemma_fv_step_refl(fv0, 1);
                                    assert(parser_wf(*self));
                                }
                                Err(ParseError::UndefinedVariable(name))
                            },
                        }
                    },
                }
            },
            Token::ClosePar => {
                proof {
                    lemma_step_any_refl(p0);
                    lemma_fv_step_refl(fv0, 0);
                }
                Err(ParseError::UnexpectedCloseParen)
            },
            Token::Period => {
                proof {
                    lemma_step_any_refl(p0);
                    lemma_fv_step_refl(fv0, 0);
                }
                Err(ParseError::UnexpectedPeriod)
            },
            Token::OpenPar => {
                self.pos = self.pos + 1;
                let ghost p1 = *self;
                proof {
                    assert(parser_wf(*self));
                    assert(ts[p0.pos as int] is OpenPar);
                }
                if self.expect("lambda") {
                    let ghost p2 = *self;
                    self.env.push_frame();
                    proof {
                        lemma_env_wf_push_frame(p2.env@, self.env@);
                        lemma_frames_total_push(
                            p2.env@.frames,
                            Seq::<(Seq<char>, usize)>::empty(),
                        );
                        assert(parser_wf(*self));
                    }
                    let ghost pb = *self;
                    let mut args_num: usize = 0;
                    match self.consume("(") {
                        Ok(_) => {},
                        Err(er) => {
                            proof {
                                lemma_fv_step_refl(fv0, self.pos - p0.pos);
                                reveal_strlit("lambda");
                                reveal_strlit("if");
                                assert("lambda"@.len() == 6 && "if"@.len() == 2);
                            }
                            return Err(er);
                        },
                    }
                    let ghost pc = *self;
                    while self.peek_is_ident()
                        invariant
                            p0 == *old(self),
                            parser_wf(*self),
                            self.token_list == p0.token_list,
                            ts == view_tokens(self.token_list@),
                            pc.pos <= self.pos <= self.token_list@.len(),
                            self.env@.frames.len() == pb.env@.frames.len(),
                            self.env@.frames.len() >= 2,
                            frames_extend(pb.env@.frames, self.env@.frames),
                            self.env@.vars.len() >= p0.env@.vars.len(),
                            self.node_list == p0.node_list,
                            self.proc_list == p0.proc_list,
                            parser_ir_size(*self) == parser_ir_size(p0),
                            args_num == self.env@.frames.last().len(),
                            args_num as int == self.pos - pc.pos,
                            forall|k: int| pc.pos <= k < self.pos ==> (#[trigger] ts[k]) is Ident,
                            count_open_range(ts, pc.pos as int, self.pos as int) == 0,
                            count_close_range(ts, pc.pos as int, self.pos as int) == 0,
                        decreases self.token_list@.len() - self.pos,
                    {
                        let nm = match &self.token_list[self.pos] {
                            Token::Ident(s) => s.clone(),
                            _ => {
                                proof {
                                    assert(false);
                                }
                                String::new()
                            },
                        };
                        let ghost pl0 = *self;
                        self.pos = self.pos + 1;
                        proof {
                            lemma_frames_total_bound(
                                self.env@.frames,
                                self.env@.frames.len() - 1,
                            );
                        }
                        let ghost el = self.env@;
                        let idxf = self.env.push_local(nm);
                        args_num = args_num + 1;
                        proof {
                            assert(idxf as nat == el.vars.len());
                            assert(el.vars.len() <= usize::MAX);
                            lemma_env_wf_push_local(el, self.env@, nm@);
                            lemma_frames_total_update_last(
                                el.frames,
                                el.frames.last().push((nm@, el.vars.len() as usize)),
                            );
                            lemma_lambdas_wf_mono(
                                view_lambdas(self.proc_list@),
                                el.vars.len(),
                                self.env@.vars.len(),
                            );
                            lemma_nodes_wf_mono(
                                view_nodes(self.node_list@),
                                el.vars.len(),
                                self.env@.vars.len(),
                            );
                            assert(parser_wf(*self));
                            assert(frames_extend(pl0.env@.frames, self.env@.frames)) by {
                                assert(el.frames.last().is_prefix_of(self.env@.frames.last()))
                                    by {
                                    assert(el.frames.last() =~= self.env@.frames.last().subrange(
                                        0,
                                        el.frames.last().len() as int,
                                    ));
                                }
                            }
                            lemma_frames_extend_trans(
                                pb.env@.frames,
                                pl0.env@.frames,
                                self.env@.frames,
                            );
                            lemma_count_one(ts, pl0.pos as int);
                            lemma_count_split(ts, pc.pos as int, pl0.pos as int, self.pos as int);
                        }
                    }
                    let ghost pf = *self;
                    proof {
                        lemma_formals_run_end_at(ts, pc.pos as int, pf.pos as int);
                        assert(pc.pos == p0.pos + 3);
                        assert(args_num as int == formals_run_end(ts, p0.pos as int + 3) - (
                        p0.pos as int + 3));
                    }
                    match self.consume(")") {
                        Ok(_) => {},
                        Err(er) => {
                            proof {
                                lemma_fv_step_refl(fv0, self.pos - p0.pos);
                                reveal_strlit("lambda");
                                reveal_strlit("if");
                                assert("lambda"@.len() == 6 && "if"@.len() == 2);
                            }
                            return Err(er);
                        },
                    }
                    let ghost pd = *self;
                    let mut body: Vec<Node> = Vec::new();
                    let mut next_fv = FVs::new();
                    proof {
                        assert(next_fv@ =~= Seq::<(usize, Seq<char>)>::empty());
                        assert(view_nodes(body@) =~= Seq::<SpecNode>::empty());
                        lemma_balanced_empty(ts, pd.pos as int);
                        lemma_frames_extend_trans(pb.env@.frames, pf.env@.frames, pd.env@.frames);
                    }
                    while !self.peek_is_close()
                        invariant
                            p0 == *old(self),
                            fv0 == old(fv)@,
                            fvs_wf(fv0),
                            p0.pos < p0.token_list@.len(),
                            ts[p0.pos as int] is OpenPar,
                            p0.pos + 1 < p0.token_list@.len(),
                            token_matches_word(ts[p0.pos as int + 1], "lambda"@),
                            p0.pos < pd.pos,
                            parser_wf(*self),
                            self.token_list == p0.token_list,
                            ts == view_tokens(self.token_list@),
                            pd.pos <= self.pos <= self.token_list@.len(),
                            self.env@.frames.len() == pb.env@.frames.len(),
                            self.env@.frames.len() >= 2,
                            frames_extend(pb.env@.frames, self.env@.frames),
                            self.env@.vars.len() >= p0.env@.vars.len(),
                            self.node_list == p0.node_list,
                            args_num <= self.env@.frames.last().len(),
                            fvs_wf(next_fv@),
                            next_fv@.len() <= self.pos - pd.pos,
                            fv@ == fv0,
                            nodes_wf(view_nodes(body@), self.env@.vars.len()),
                            parser_ir_size(*self) + nodes_size(view_nodes(body@))
                                <= parser_ir_size(p0) + (self.pos - pd.pos),
                            expr_balanced(ts, pd.pos as int, self.pos as int),
                        decreases self.token_list@.len() - self.pos,
                    {
                        if self.pos >= self.token_list.len() {
                            proof {
                                lemma_fv_step_refl(fv0, self.pos - p0.pos);
                                reveal_strlit("lambda");
                                reveal_strlit("if");
                                assert("lambda"@.len() == 6 && "if"@.len() == 2);
                            }
                            return Err(ParseError::UnexpectedEnd);
                        }
                        let ghost pl = *self;
                        let ghost bv0 = view_nodes(body@);
                        proof {
                            assert(next_fv@.len() + self.token_list@.len() - self.pos <= max_len());
                        }
                        let node = match self.parse_local_expr(&mut next_fv) {
                            Ok(n) => n,
                            Err(e) => {
                                proof {
                                    lemma_fv_step_refl(fv0, self.pos - p0.pos);
                                    reveal_strlit("lambda");
                                    reveal_strlit("if");
                                    assert("lambda"@.len() == 6 && "if"@.len() == 2);
                                }
                                return Err(e);
                            },
                        };
                        let ghost nv = view_node(node);
                        body.push(node);
                        proof {
                            assert(view_nodes(body@) =~= bv0.push(nv));
                            lemma_nodes_size_push(bv0, nv);
                            assert(nodes_wf(view_nodes(body@), self.env@.vars.len())) by {
                                lemma_nodes_wf_mono(
                                    bv0,
                                    pl.env@.vars.len(),
                                    self.env@.vars.len(),
                                );
                                assert forall|i: int|
                                    0 <= i < view_nodes(body@).len() implies node_wf(
                                    #[trigger] view_nodes(body@)[i],
                                    self.env@.vars.len(),
                                ) by {
                                    if i < bv0.len() {
                                        assert(view_nodes(body@)[i] == bv0[i]);
                                    } else {
                                        assert(view_nodes(body@)[i] == nv);
                                    }
                                }
                            }
                            lemma_balanced_join(ts, pd.pos as int, pl.pos as int, self.pos as int);
                            lemma_frames_extend_trans(
                                pb.env@.frames,
                                pl.env@.frames,
                                self.env@.frames,
                            );
                        }
                    }
                    let ghost pe = *self;
                    match self.consume(")") {
                        Ok(_) => {},
                        Err(er) => {
                            proof {
                                assert(false);
                            }
                            return Err(er);
                        },
                    }
                    let free_num = next_fv.len();
                    let local_num = self.env.local_num();
                    let ghost ef = self.env@;
                    self.env.pop_frame();
                    proof {
                        lemma_env_wf_pop_frame(ef, self.env@);
                        assert(frames_total(self.env@.frames) <= frames_total(ef.frames)) by {
                            assert(frames_total(ef.frames) == ef.frames.last().len()
                                + frames_total(ef.frames.drop_last()));
                            assert(self.env@.frames =~~= ef.frames.drop_last());
                        }
                        assert(parser_wf(*self));
                        assert(self.env@.frames =~~= p0.env@.frames) by {
                            assert forall|i: int|
                                0 <= i < self.env@.frames.len() implies self.env@.frames[i]
                                =~= p0.env@.frames[i] by {
                                assert(ef.frames[i] == pb.env@.frames[i]);
                                assert(pb.env@.frames[i] == p2.env@.frames.push(
                                    Seq::<(Seq<char>, usize)>::empty(),
                                )[i]);
                            }
                        }
                        lemma_frames_total_bound(ef.frames, ef.frames.len() - 1);
                    }
                    proof {
                        assert(fv@.len() + next_fv@.len() <= max_len());
                    }
                    let ghost env_closed = self.env@;
                    let ghost nfv = next_fv@;
                    propagate_free_vars(&self.env, &next_fv, fv);
                    proof {
                        assert(fv@ == spec_propagate(env_closed, nfv, fv0, 0));
                    }
                    let id = self.proc_list.len();
                    let label = lambda_label(id);
                    let expr_fvs = next_fv.duplicate();
                    let ghost procs0 = view_lambdas(self.proc_list@);
                    let ghost bodyv = view_nodes(body@);
                    let lam = Lambda { free_vars: next_fv, free_num, args_num, local_num, body };
                    proof {
                        assert(lam@.body == bodyv);
                        assert(lambda_wf(lam@, self.env@.vars.len()));
                    }
                    self.proc_list.push(lam);
                    proof {
                        assert(view_lambdas(self.proc_list@) =~= procs0.push(lam@));
                        lemma_lambdas_size_push(procs0, lam@);
                        assert(lambdas_wf(view_lambdas(self.proc_list@), self.env@.vars.len()))
                            by {
                            assert forall|i: int|
                                0 <= i < view_lambdas(self.proc_list@).len() implies lambda_wf(
                                #[trigger] view_lambdas(self.proc_list@)[i],
                                self.env@.vars.len(),
                            ) by {
                                if i < procs0.len() {
                                    assert(view_lambdas(self.proc_list@)[i] == procs0[i]);
                                } else {
                                    assert(view_lambdas(self.proc_list@)[i] == lam@);
                                }
                            }
                        }
                        assert(parser_wf(*self));
                        assert(fv_step(fv0, fv@, self.pos - p0.pos));
                        if tokens_wf(ts) {
                            lemma_count_one(ts, p0.pos as int);
                            reveal_strlit("lambda");
                            lemma_match_word(ts[p1.pos as int], "lambda"@);
                            lemma_count_one(ts, p1.pos as int);
                            lemma_match_open(ts[p2.pos as int]);
                            lemma_count_one(ts, p2.pos as int);
                            lemma_match_close(ts[pf.pos as int]);
                            lemma_count_one(ts, pf.pos as int);
                            lemma_count_one(ts, pe.pos as int);
                            lemma_count_split(ts, p0.pos as int, p1.pos as int, self.pos as int);
                            lemma_count_split(ts, p1.pos as int, p2.pos as int, self.pos as int);
                            lemma_count_split(ts, p2.pos as int, pc.pos as int, self.pos as int);
                            lemma_count_split(ts, pc.pos as int, pf.pos as int, self.pos as int);
                            lemma_count_split(ts, pf.pos as int, pd.pos as int, self.pos as int);
                            lemma_count_split(ts, pd.pos as int, pe.pos as int, self.pos as int);
                        }
                    }
                    proof {
                        reveal_strlit("lambda");
                        reveal_strlit("if");
                        assert("lambda"@.len() == 6 && "if"@.len() == 2);
                        assert(self.proc_list@.last() == lam);
                        assert(lam@.free_vars == expr_fvs@);
                        assert(expr_fvs@ == nfv);
                        assert(self.env@ == env_closed);
                        assert(fv@ == spec_propagate(self.env@, expr_fvs@, fv0, 0));
                        assert(lam@.args_num as int == formals_run_end(ts, p0.pos as int + 3) - (
                        p0.pos as int + 3));
                    }
                    return Ok(Expr::Proc(label, expr_fvs));
                }
                if self.expect("if") {
                    let ghost pi = *self;
                    proof {
                        assert(fv@.len() + self.token_list@.len() - self.pos <= max_len());
                    }
                    let test = match self.parse_expr(fv) {
                        Ok(e) => e,
                        Err(er) => {
                            proof {
                                lemma_fv_step_refl(fv0, pi.pos - p0.pos);
                                lemma_fv_step_trans(
                                    fv0,
                                    fv0,
                                    fv@,
                                    pi.pos - p0.pos,
                                    self.pos - pi.pos,
                                );
                                if flat_if_ok(ts, p0.env@, p0.pos as int) {
                                    assert(pi.env == p0.env);
                                    assert(pi.pos == p0.pos + 2);
                                    assert(atom_ok(ts, pi.env@, pi.pos as int));
                                    assert(false);
                                }
                            }
                            return Err(er);
                        },
                    };
                    let ghost pt = *self;
                    let ghost fvt = fv@;
                    proof {
                        lemma_fv_step_refl(fv0, pi.pos - p0.pos);
                        lemma_fv_step_trans(fv0, fv0, fvt, pi.pos - p0.pos, pt.pos - pi.pos);
                    }
                    let conseq = match self.parse_expr(fv) {
                        Ok(e) => e,
                        Err(er) => {
                            proof {
                                lemma_fv_step_trans(
                                    fv0,
                                    fvt,
                                    fv@,
                                    pt.pos - p0.pos,
                                    self.pos - pt.pos,
                                );
                                if flat_if_ok(ts, p0.env@, p0.pos as int) {
                                    assert(pi.env == p0.env);
                                    assert(pi.pos == p0.pos + 2);
                                    assert(atom_ok(ts, pi.env@, pi.pos as int));
                                    match ts[pi.pos as int] {
                                        SpecToken::Ident(s) => {
                                            if !is_primitive(s) {
                                                assert(env_lookup(pi.env@, s) is Some);
                                            }
                                        },
                                        _ => {},
                                    }
                                    assert(pt.pos == p0.pos + 3);
                                    assert(pt.env@.frames =~~= p0.env@.frames);
                                    lemma_atom_ok_frames(ts, pt.env@, p0.env@, pt.pos as int);
                                    assert(atom_ok(ts, pt.env@, pt.pos as int));
                                    assert(false);
                                }
                            }
                            return Err(er);
                        },
                    };
                    let ghost pu = *self;
                    let ghost fvu = fv@;
                    proof {
                        lemma_fv_step_trans(fv0, fvt, fvu, pt.pos - p0.pos, pu.pos - pt.pos);
                    }
                    let alter = match self.parse_expr(fv) {
                        Ok(e) => e,
                        Err(er) => {
                            proof {
                                lemma_fv_step_trans(
                                    fv0,
                                    fvu,
                                    fv@,
                                    pu.pos - p0.pos,
                                    self.pos - pu.pos,
                                );
                                if flat_if_ok(ts, p0.env@, p0.pos as int) {
                                    assert(pi.env == p0.env);
                                    assert(pi.pos == p0.pos + 2);
                                    assert(atom_ok(ts, pi.env@, pi.pos as int));
                                    match ts[pi.pos as int] {
                                        SpecToken::Ident(s) => {
                                            if !is_primitive(s) {
                                                assert(env_lookup(pi.env@, s) is Some);
                                            }
                                        },
                                        _ => {},
                                    }
                                    assert(pt.pos == p0.pos + 3);
                                    assert(pt.env@.frames =~~= p0.env@.frames);
                                    lemma_atom_ok_frames(ts, pt.env@, p0.env@, pt.pos as int);
                                    assert(atom_ok(ts, pt.env@, pt.pos as int));
                                    match ts[pt.pos as int] {
                                        SpecToken::Ident(s) => {
                                            if !is_primitive(s) {
                                                assert(env_lookup(pt.env@, s) is Some);
                                            }
                                        },
                                        _ => {},
                                    }
                                    assert(pu.pos == p0.pos + 4);
                                    assert(pu.env@.frames =~~= p0.env@.frames);
                                    lemma_atom_ok_frames(ts, pu.env@, p0.env@, pu.pos as int);
                                    assert(atom_ok(ts, pu.env@, pu.pos as int));
                                    assert(false);
                                }
                            }
                            return Err(er);
                        },
                    };
                    let ghost pv = *self;
                    let ghost fvv = fv@;
                    proof {
                        lemma_fv_step_trans(fv0, fvu, fvv, pu.pos - p0.pos, pv.pos - pu.pos);
                    }
                    match self.consume(")") {
                        Ok(_) => {},
                        Err(er) => {
                            proof {
                                if flat_if_ok(ts, p0.env@, p0.pos as int) {
                                    assert(pi.env == p0.env);
                                    assert(pi.pos == p0.pos + 2);
                                    assert(atom_ok(ts, pi.env@, pi.pos as int));
                                    match ts[pi.pos as int] {
                                        SpecToken::Ident(s) => {
                                            if !is_primitive(s) {
                                                assert(env_lookup(pi.env@, s) is Some);
                                            }
                                        },
                                        _ => {},
                                    }
                                    assert(pt.pos == p0.pos + 3);
                                    assert(pt.env@.frames =~~= p0.env@.frames);
                                    lemma_atom_ok_frames(ts, pt.env@, p0.env@, pt.pos as int);
                                    match ts[pt.pos as int] {
                                        SpecToken::Ident(s) => {
                                            if !is_primitive(s) {
                                                assert(env_lookup(pt.env@, s) is Some);
                                            }
                                        },
                                        _ => {},
                                    }
                                    assert(pu.pos == p0.pos + 4);
                                    assert(pu.env@.frames =~~= p0.env@.frames);
                                    lemma_atom_ok_frames(ts, pu.env@, p0.env@, pu.pos as int);
                                    match ts[pu.pos as int] {
                                        SpecToken::Ident(s) => {
                                            if !is_primitive(s) {
                                                assert(env_lookup(pu.env@, s) is Some);
                                            }
                                        },
                                        _ => {},
                                    }
                                    assert(pv.pos == p0.pos + 5);
                                    assert(ts[pv.pos as int] is ClosePar);
                                    assert(false);
                                }
                            }
                            return Err(er);
                        },
                    }
                    let ghost tv = view_expr(test);
                    let ghost cv = view_expr(conseq);
                    let ghost av = view_expr(alter);
                    let e = Expr::If {
                        test: Box::new(test),
                        conseq: Box::new(conseq),
                        alter: Box::new(alter),
                    };
                    proof {
                        assert(view_expr(e) == (SpecExpr::If {
                            test: Box::new(tv),
                            conseq: Box::new(cv),
                            alter: Box::new(av),
                        }));
                        lemma_expr_wf_mono(tv, pt.env@.vars.len(), self.env@.vars.len());
                        lemma_expr_wf_mono(cv, pu.env@.vars.len(), self.env@.vars.len());
                        lemma_expr_wf_mono(av, pv.env@.vars.len(), self.env@.vars.len());
                        assert(self.env@.frames =~~= p0.env@.frames);
                        assert(fv_step(fv0, fv@, self.pos - p0.pos));
                        if tokens_wf(ts) {
                            lemma_count_one(ts, p0.pos as int);
                            reveal_strlit("if");
                            lemma_match_word(ts[p1.pos as int], "if"@);
                            lemma_count_one(ts, p1.pos as int);
                            lemma_match_close(ts[pv.pos as int]);
                            lemma_count_one(ts, pv.pos as int);
                            lemma_count_split(ts, p0.pos as int, p1.pos as int, self.pos as int);
                            lemma_count_split(ts, p1.pos as int, pi.pos as int, self.pos as int);
                            lemma_count_split(ts, pi.pos as int, pt.pos as int, self.pos as int);
                            lemma_count_split(ts, pt.pos as int, pu.pos as int, self.pos as int);
                            lemma_count_split(ts, pu.pos as int, pv.pos as int, self.pos as int);
                        }
                    }
                    return Ok(e);
                }
                let ghost pq = *self;
                proof {
                    assert(fv@.len() + self.token_list@.len() - self.pos <= max_len());
                }
                let proc = match self.parse_expr(fv) {
                    Ok(e) => e,
                    Err(er) => {
                        proof {
                            lemma_fv_step_refl(fv0, pq.pos - p0.pos);
                            lemma_fv_step_trans(fv0, fv0, fv@, pq.pos - p0.pos, self.pos - pq.pos);
                            assert forall|close: int|
                                !flat_call_ok(ts, p0.env@, p0.pos as int, close) by {
                                if flat_call_ok(ts, p0.env@, p0.pos as int, close) {
                                    assert(pq.env == p0.env);
                                    assert(pq.pos == p0.pos + 1);
                                    assert(atom_ok(ts, pq.env@, pq.pos as int));
                                    assert(false);
                                }
                            }
                        }
                        return Err(er);
                    },
                };
                let ghost pr0 = *self;
                let ghost fvp = fv@;
                proof {
                    lemma_fv_step_refl(fv0, pq.pos - p0.pos);
                    lemma_fv_step_trans(fv0, fv0, fvp, pq.pos - p0.pos, pr0.pos - pq.pos);
                    lemma_balanced_empty(ts, pr0.pos as int);
                    assert forall|close: int|
                        flat_call_ok(ts, p0.env@, p0.pos as int, close) implies pr0.pos
                        <= close by {
                        assert(pq.env == p0.env);
                        assert(pq.pos == p0.pos + 1);
                        assert(atom_ok(ts, pq.env@, pq.pos as int));
                        match ts[pq.pos as int] {
                            SpecToken::Ident(s) => {
                                if !is_primitive(s) {
                                    assert(env_lookup(pq.env@, s) is Some);
                                }
                            },
                            _ => {},
                        }
                        assert(pr0.pos == p0.pos + 2);
                    }
                }
                let mut params: Vec<Expr> = Vec::new();
                proof {
                    assert(view_exprs(params@) =~= Seq::<SpecExpr>::empty());
                }
                while !self.peek_is_close()
                    invariant
                        p0 == *old(self),
                        fv0 == old(fv)@,
                        fvs_wf(fv0),
                        p0.pos < p0.token_list@.len(),
                        ts[p0.pos as int] is OpenPar,
                        p0.pos + 1 < p0.token_list@.len() ==> !token_matches_word(
                            ts[p0.pos as int + 1],
                            "if"@,
                        ),
                        forall|close: int|
                            flat_call_ok(ts, p0.env@, p0.pos as int, close) ==> self.pos <= close,
                        parser_wf(*self),
                        self.token_list == p0.token_list,
                        ts == view_tokens(self.token_list@),
                        pr0.pos <= self.pos <= self.token_list@.len(),
                        self.env@.frames =~~= p0.env@.frames,
                        self.env@.vars.len() >= p0.env@.vars.len(),
                        self.env@.vars.len() >= pr0.env@.vars.len(),
                        self.node_list == p0.node_list,
                        fv_step(fv0, fv@, self.pos - p0.pos),
                        p0.pos < pr0.pos,
                        expr_wf(view_expr(proc), self.env@.vars.len()),
                        exprs_wf(view_exprs(params@), self.env@.vars.len()),
                        params@.len() <= self.pos - pr0.pos,
                        parser_ir_size(*self) + exprs_size(view_exprs(params@)) <= parser_ir_size(
                            pr0,
                        ) + (self.pos - pr0.pos),
                        parser_ir_size(pr0) + expr_size(view_expr(proc)) <= parser_ir_size(p0) + (
                        pr0.pos - p0.pos - 1),
                        expr_balanced(ts, pr0.pos as int, self.pos as int),
                        fv0.len() + self.token_list@.len() - p0.pos <= max_len(),
                    decreases self.token_list@.len() - self.pos,
                {
                    if self.pos >= self.token_list.len() {
                        proof {
                            assert forall|close: int|
                                !flat_call_ok(ts, p0.env@, p0.pos as int, close) by {
                                if flat_call_ok(ts, p0.env@, p0.pos as int, close) {
                                    assert(self.pos <= close && close < ts.len());
                                    assert(false);
                                }
                            }
                        }
                        return Err(ParseError::UnexpectedEnd);
                    }
                    let ghost pl = *self;
                    let ghost fvl = fv@;
                    let ghost prm0 = view_exprs(params@);
                    proof {
                        assert(fv@.len() + self.token_list@.len() - self.pos <= max_len());
                    }
                    let param = match self.parse_expr(fv) {
                        Ok(e) => e,
                        Err(er) => {
                            proof {
                                lemma_fv_step_trans(
                                    fv0,
                                    fvl,
                                    fv@,
                                    pl.pos - p0.pos,
                                    self.pos - pl.pos,
                                );
                                assert forall|close: int|
                                    !flat_call_ok(ts, p0.env@, p0.pos as int, close) by {
                                    if flat_call_ok(ts, p0.env@, p0.pos as int, close) {
                                        assert(pl.pos <= close);
                                        assert(!(ts[pl.pos as int] is ClosePar));
                                        assert(pl.pos < close);
                                        assert(atom_ok(ts, p0.env@, pl.pos as int));
                                        lemma_atom_ok_frames(ts, pl.env@, p0.env@, pl.pos as int);
                                        assert(atom_ok(ts, pl.env@, pl.pos as int));
                                        assert(false);
                                    }
                                }
                            }
                            return Err(er);
                        },
                    };
                    let ghost pv2 = view_expr(param);
                    let ghost ps0 = params@;
                    params.push(param);
                    proof {
                        lemma_fv_step_trans(fv0, fvl, fv@, pl.pos - p0.pos, self.pos - pl.pos);
                        lemma_view_exprs_push(ps0, params@.last());
                        assert(view_exprs(params@) =~= prm0.push(pv2));
                        lemma_exprs_size_push(prm0, pv2);
                        lemma_exprs_wf_mono(prm0, pl.env@.vars.len(), self.env@.vars.len());
                        lemma_exprs_wf_push(prm0, pv2, self.env@.vars.len());
                        assert(exprs_wf(view_exprs(params@), self.env@.vars.len()));
                        lemma_expr_wf_mono(
                            view_expr(proc),
                            pl.env@.vars.len(),
                            self.env@.vars.len(),
                        );
                        lemma_balanced_join(ts, pr0.pos as int, pl.pos as int, self.pos as int);
                        assert(self.env@.frames =~~= p0.env@.frames);
                        assert forall|close: int|
                            flat_call_ok(ts, p0.env@, p0.pos as int, close) implies self.pos
                            <= close by {
                            assert(pl.pos <= close);
                            assert(!(ts[pl.pos as int] is ClosePar));
                            assert(pl.pos < close);
                            assert(atom_ok(ts, p0.env@, pl.pos as int));
                            lemma_atom_ok_frames(ts, pl.env@, p0.env@, pl.pos as int);
                            assert(atom_ok(ts, pl.env@, pl.pos as int));
                            match ts[pl.pos as int] {
                                SpecToken::Ident(s) => {
                                    if !is_primitive(s) {
                                        assert(env_lookup(pl.env@, s) is Some);
                                    }
                                },
                                _ => {},
                            }
                            assert(self.pos == pl.pos + 1);
                        }
                    }
                }
                let ghost pw = *self;
                match self.consume(")") {
                    Ok(_) => {},
                    Err(er) => {
                        proof {
                            assert(false);
                        }
                        return Err(er);
                    },
                }
                proof {
                    lemma_view_exprs(params@);
                    if tokens_wf(ts) {
                        lemma_count_one(ts, p0.pos as int);
                        lemma_count_one(ts, pw.pos as int);
                        lemma_count_split(ts, p0.pos as int, pq.pos as int, self.pos as int);
                        lemma_count_split(ts, pq.pos as int, pr0.pos as int, self.pos as int);
                        lemma_count_split(ts, pr0.pos as int, pw.pos as int, self.pos as int);
                    }
                }
                Ok(Expr::Call { proc: Box::new(proc), params })
            },
        }
    }
}

pub proof fn lemma_frame_index_in_range(f: Seq<(Seq<char>, usize)>, name: Seq<char>, j: int)
    requires
        0 <= j <= f.len(),
        frame_index_of_from(f, name, j) >= 0,
    ensures
        j <= frame_index_of_from(f, name, j) < f.len(),
        f[frame_index_of_from(f, name, j)].0 == name,
    decreases f.len() - j,
{
    if j < f.len() && f[j].0 != name {
        lemma_frame_index_in_range(f, name, j + 1);
    }
}

proof fn lemma_env_lookup_in_range(frames: Seq<Seq<(Seq<char>, usize)>>, name: Seq<char>, i: int)
    requires
        env_lookup_from(frames, name, i) is Some,
    ensures
        ({
            let hit = env_lookup_from(frames, name, i).unwrap();
            &&& 0 <= hit.0 < frames.len()
            &&& hit.0 <= i
            &&& 0 <= hit.1 < frames[hit.0].len()
            &&& frames[hit.0][hit.1].0 == name
        }),
    decreases i + 1,
{
    if !(i < 0 || i >= frames.len()) {
        if frame_index_of(frames[i], name) >= 0 {
            lemma_frame_index_in_range(frames[i], name, 0);
        } else {
            lemma_env_lookup_in_range(frames, name, i - 1);
        }
    }
}

/// Appending one expression appends its image.
proof fn lemma_view_exprs_push(s: Seq<Expr>, e: Expr)
    ensures
        view_exprs(s.push(e)) =~= view_exprs(s).push(view_expr(e)),
{
    lemma_view_exprs(s.push(e));
    lemma_view_exprs(s);
    assert forall|i: int|
        0 <= i < view_exprs(s.push(e)).len() implies view_exprs(s.push(e))[i] == view_exprs(
        s,
    ).push(view_expr(e))[i] by {
        if i < s.len() {
            assert(s.push(e)[i] == s[i]);
        } else {
            assert(s.push(e)[i] == e);
        }
    }
}

} // verus!
