//! The binary linker and the dynamic-loading ABI.
//!
//! A [`LinkContext`] owns everything the linker shares across modules: the
//! instance registry, the two global-offset-table caches, the length of the
//! shared indirect call table, and the guest-readable error channel.  The
//! execution engine itself is an outside collaborator: growing the real
//! table, allocating guest memory, enumerating exports and instantiating
//! modules happen outside, and the functions here decide what to do with
//! each answer and keep the bookkeeping that must never double-allocate or
//! double-link.

use vstd::prelude::*;
use vstd::string::StringExecFns;
use vstd::string::StringSliceAdditionalSpecFns;
use vstd::slice::slice_subrange;
use vstd::slice::slice_to_vec;

use crate::dylink::Dylink;
use crate::dylink::DylinkView;
use crate::error::Error;
use crate::manager::str_eq;

verus! {

/// The capacity of the error channel, in bytes of guest memory.
pub const ERROR_BUFFER_SIZE: usize = 256;

/// Mathematical image of an [`InstanceInfo`].
pub struct InstanceInfoView {
    pub name: Seq<char>,
    pub dylink: Option<DylinkView>,
    pub memory_base: i32,
    pub table_base: Option<u32>,
}

/// One linked module: its id, the linking metadata it was linked from (the
/// entrypoint module has none), and the bases of the shared memory and
/// table regions assigned to it.  Registry entries are appended exactly
/// once and never removed.
pub struct InstanceInfo {
    pub name: String,
    pub dylink: Option<Dylink>,
    pub memory_base: i32,
    pub table_base: Option<u32>,
}

impl View for InstanceInfo {
    type V = InstanceInfoView;

    open spec fn view(&self) -> InstanceInfoView {
        InstanceInfoView {
            name: self.name@,
            dylink: match self.dylink {
                Some(ref d) => Some(d@),
                None => None,
            },
            memory_base: self.memory_base,
            table_base: self.table_base,
        }
    }
}

/// Mathematical image of the [`ErrorInformation`] channel.
pub struct ErrorInformationView {
    pub size: int,
    pub position: int,
    pub occurred: bool,
    pub buffer: Seq<u8>,
}

/// The error channel: a fixed-capacity region of the main module's linear
/// memory used to surface the latest error message to guest code.
/// `buffer` holds the bytes most recently written; the embedding program
/// mirrors them into guest memory at `position`.
pub struct ErrorInformation {
    pub size: usize,
    pub position: usize,
    pub occurred: bool,
    pub buffer: Vec<u8>,
}

impl View for ErrorInformation {
    type V = ErrorInformationView;

    open spec fn view(&self) -> ErrorInformationView {
        ErrorInformationView {
            size: self.size as int,
            position: self.position as int,
            occurred: self.occurred,
            buffer: self.buffer@,
        }
    }
}

/// Mathematical image of a [`LinkContext`].
pub struct LinkContextView {
    pub instances: Seq<InstanceInfoView>,
    pub got_func: Seq<(Seq<char>, u32)>,
    pub got_mem: Seq<(Seq<char>, i32)>,
    pub table_len: u32,
    pub error: ErrorInformationView,
}

/// Everything the linker shares across modules: the registry, the two
/// global-offset-table caches (function symbols to table slots, data
/// symbols to absolute addresses), the length of the shared indirect call
/// table, and the error channel.
pub struct LinkContext {
    pub instances: Vec<InstanceInfo>,
    pub got_func: Vec<(String, u32)>,
    pub got_mem: Vec<(String, i32)>,
    pub table_len: u32,
    pub error: ErrorInformation,
}

impl View for LinkContext {
    type V = LinkContextView;

    open spec fn view(&self) -> LinkContextView {
        LinkContextView {
            instances: self.instances@.map_values(|i: InstanceInfo| i@),
            got_func: self.got_func@.map_values(|p: (String, u32)| (p.0@, p.1)),
            got_mem: self.got_mem@.map_values(|p: (String, i32)| (p.0@, p.1)),
            table_len: self.table_len,
            error: self.error@,
        }
    }
}

// ---------------------------------------------------------------------------
// Well-formedness
// ---------------------------------------------------------------------------

/// An instance fits the context: its memory range stays within the 32-bit
/// address space and its table range within the shared table.
pub open spec fn instance_wf(inst: InstanceInfoView, table_len: u32) -> bool {
    match inst.dylink {
        Some(d) => {
            &&& inst.memory_base >= 0
            &&& inst.memory_base + d.mem_size <= i32::MAX
            &&& match inst.table_base {
                Some(tb) => tb + d.table_size <= table_len,
                None => true,
            }
        },
        None => true,
    }
}

/// The memory ranges and the table ranges of two instances do not overlap.
/// An instance without linking metadata occupies no range of its own.
pub open spec fn ranges_disjoint(a: InstanceInfoView, b: InstanceInfoView) -> bool {
    &&& match (a.dylink, b.dylink) {
        (Some(da), Some(db)) => {
            &&& (da.mem_size == 0 || db.mem_size == 0 || a.memory_base + da.mem_size
                <= b.memory_base || b.memory_base + db.mem_size <= a.memory_base)
            &&& match (a.table_base, b.table_base) {
                (Some(ta), Some(tb)) => da.table_size == 0 || db.table_size == 0 || ta
                    + da.table_size <= tb || tb + db.table_size <= ta,
                _ => true,
            }
        },
        _ => true,
    }
}

/// The registry and cache invariants of a linker context: every instance
/// fits, no two instances' ranges overlap, each relocation cache binds a
/// symbol at most once, every cached table slot is a valid non-sentinel
/// slot, and the error channel is usable.
pub open spec fn ctx_wf(c: LinkContextView) -> bool {
    &&& c.instances.len() <= u32::MAX
    &&& forall|i: int| 0 <= i < c.instances.len() ==> instance_wf(
        #[trigger] c.instances[i],
        c.table_len,
    )
    &&& forall|i: int, j: int| 0 <= i < j < c.instances.len() ==> ranges_disjoint(
        #[trigger] c.instances[i],
        #[trigger] c.instances[j],
    )
    &&& forall|i: int, j: int| 0 <= i < j < c.got_func.len() ==> (#[trigger] c.got_func[i]).0 != (
    #[trigger] c.got_func[j]).0
    &&& forall|i: int, j: int| 0 <= i < j < c.got_mem.len() ==> (#[trigger] c.got_mem[i]).0 != (
    #[trigger] c.got_mem[j]).0
    &&& forall|i: int| 0 <= i < c.got_func.len() ==> 1 <= (#[trigger] c.got_func[i]).1
        < c.table_len
    &&& c.error.size >= 1
    &&& c.error.position <= u32::MAX
}

// ---------------------------------------------------------------------------
// Relocation caches
// ---------------------------------------------------------------------------

/// First binding of `name` in a relocation cache.
pub open spec fn spec_got_lookup<T>(got: Seq<(Seq<char>, T)>, name: Seq<char>) -> Option<T>
    decreases got.len(),
{
    if got.len() == 0 {
        None
    } else if got[0].0 == name {
        Some(got[0].1)
    } else {
        spec_got_lookup(got.drop_first(), name)
    }
}

/// A cache without a binding for `name` has no entry named `name`.
pub proof fn lemma_got_lookup_none<T>(got: Seq<(Seq<char>, T)>, name: Seq<char>)
    ensures
        spec_got_lookup(got, name) is None <==> forall|i: int|
            0 <= i < got.len() ==> (#[trigger] got[i]).0 != name,
    decreases got.len(),
{
    if got.len() > 0 {
        lemma_got_lookup_none(got.drop_first(), name);
        assert(forall|i: int| 1 <= i < got.len() ==> got.drop_first()[i - 1] == #[trigger] got[i]);
        if got[0].0 != name && (forall|i: int| 0 <= i < got.drop_first().len() ==> (
        #[trigger] got.drop_first()[i]).0 != name) {
            assert(forall|i: int| 0 <= i < got.len() ==> (#[trigger] got[i]).0 != name);
        }
    }
}

/// A binding, once present, survives any later appends: the caches are
/// append-only, so a resolved symbol keeps its value for the process
/// lifetime.
pub proof fn lemma_got_lookup_stable<T>(
    g1: Seq<(Seq<char>, T)>,
    g2: Seq<(Seq<char>, T)>,
    name: Seq<char>,
    value: T,
)
    requires
        g1.is_prefix_of(g2),
        spec_got_lookup(g1, name) == Some(value),
    ensures
        spec_got_lookup(g2, name) == Some(value),
    decreases g1.len(),
{
    if g1.len() > 0 {
        if g1[0].0 == name {
            assert(g2[0] == g1[0]);
        } else {
            assert(g1.drop_first().is_prefix_of(g2.drop_first()));
            lemma_got_lookup_stable(g1.drop_first(), g2.drop_first(), name, value);
        }
    }
}

/// A well-formed context binds each function symbol to at most one table
/// slot, and each data symbol to at most one address: two entries with one
/// name are one entry.
pub proof fn lemma_got_functional(c: LinkContextView, i: int, j: int)
    requires
        ctx_wf(c),
    ensures
        0 <= i < c.got_func.len() && 0 <= j < c.got_func.len() && c.got_func[i].0
            == c.got_func[j].0 ==> i == j && c.got_func[i].1 == c.got_func[j].1,
        0 <= i < c.got_mem.len() && 0 <= j < c.got_mem.len() && c.got_mem[i].0 == c.got_mem[j].0
            ==> i == j && c.got_mem[i].1 == c.got_mem[j].1,
{
}

/// First binding of `name` in the function cache, executed.
fn got_func_find(got: &Vec<(String, u32)>, name: &str) -> (r: Option<u32>)
    ensures
        r == spec_got_lookup(got@.map_values(|p: (String, u32)| (p.0@, p.1)), name@),
{
    let ghost g = got@.map_values(|p: (String, u32)| (p.0@, p.1));
    let mut i: usize = 0;
    proof {
        assert(g.skip(0) =~= g);
    }
    while i < got.len()
        invariant
            g == got@.map_values(|p: (String, u32)| (p.0@, p.1)),
            g.len() == got@.len(),
            i <= got@.len(),
            spec_got_lookup(g, name@) == spec_got_lookup(g.skip(i as int), name@),
        decreases got@.len() - i,
    {
        let ghost before = g.skip(i as int);
        proof {
            assert(before[0] == g[i as int]);
            assert(g[i as int] == (got@[i as int].0@, got@[i as int].1));
            assert(before.drop_first() =~= g.skip(i as int + 1));
        }
        if str_eq(got[i].0.as_str(), name) {
            return Some(got[i].1);
        }
        i = i + 1;
    }
    proof {
        assert(g.skip(g.len() as int) =~= Seq::<(Seq<char>, u32)>::empty());
    }
    None
}

/// First binding of `name` in the data cache, executed.
fn got_mem_find(got: &Vec<(String, i32)>, name: &str) -> (r: Option<i32>)
    ensures
        r == spec_got_lookup(got@.map_values(|p: (String, i32)| (p.0@, p.1)), name@),
{
    let ghost g = got@.map_values(|p: (String, i32)| (p.0@, p.1));
    let mut i: usize = 0;
    proof {
        assert(g.skip(0) =~= g);
    }
    while i < got.len()
        invariant
            g == got@.map_values(|p: (String, i32)| (p.0@, p.1)),
            g.len() == got@.len(),
            i <= got@.len(),
            spec_got_lookup(g, name@) == spec_got_lookup(g.skip(i as int), name@),
        decreases got@.len() - i,
    {
        let ghost before = g.skip(i as int);
        proof {
            assert(before[0] == g[i as int]);
            assert(g[i as int] == (got@[i as int].0@, got@[i as int].1));
            assert(before.drop_first() =~= g.skip(i as int + 1));
        }
        if str_eq(got[i].0.as_str(), name) {
            return Some(got[i].1);
        }
        i = i + 1;
    }
    proof {
        assert(g.skip(g.len() as int) =~= Seq::<(Seq<char>, i32)>::empty());
    }
    None
}

// ---------------------------------------------------------------------------
// The context
// ---------------------------------------------------------------------------

impl LinkContext {
    /// A fresh context: empty registry, empty caches, an empty shared
    /// table, and an unarmed error channel.
    pub fn new() -> (c: LinkContext)
        ensures
            ctx_wf(c@),
            c@.instances == Seq::<InstanceInfoView>::empty(),
            c@.got_func == Seq::<(Seq<char>, u32)>::empty(),
            c@.got_mem == Seq::<(Seq<char>, i32)>::empty(),
            c@.table_len == 0,
            c@.error.size == ERROR_BUFFER_SIZE as int,
            c@.error.position == 0,
            !c@.error.occurred,
    {
        let c = LinkContext {
            instances: Vec::new(),
            got_func: Vec::new(),
            got_mem: Vec::new(),
            table_len: 0,
            error: ErrorInformation {
                size: ERROR_BUFFER_SIZE,
                position: 0,
                occurred: false,
                buffer: Vec::new(),
            },
        };
        proof {
            assert(c@.instances =~= Seq::<InstanceInfoView>::empty());
            assert(c@.got_func =~= Seq::<(Seq<char>, u32)>::empty());
            assert(c@.got_mem =~= Seq::<(Seq<char>, i32)>::empty());
        }
        c
    }

    /// Adopt the length the shared indirect call table already has when
    /// the linker takes it over at boot, before anything is linked or
    /// cached.
    pub fn adopt_table(&mut self, table_len: u32)
        requires
            ctx_wf(old(self)@),
            old(self)@.instances == Seq::<InstanceInfoView>::empty(),
            old(self)@.got_func == Seq::<(Seq<char>, u32)>::empty(),
        ensures
            ctx_wf(final(self)@),
            final(self)@.table_len == table_len,
            final(self)@.instances == old(self)@.instances,
            final(self)@.got_func == old(self)@.got_func,
            final(self)@.got_mem == old(self)@.got_mem,
            final(self)@.error == old(self)@.error,
    {
        self.table_len = table_len;
        proof {
            assert forall|a: int, b: int| 0 <= a < b < self@.got_mem.len() implies (
            #[trigger] self@.got_mem[a]).0 != (#[trigger] self@.got_mem[b]).0 by {
                assert(self@.got_mem[a] == old(self)@.got_mem[a]);
                assert(self@.got_mem[b] == old(self)@.got_mem[b]);
                assert(old(self)@.got_mem[a].0 != old(self)@.got_mem[b].0);
            }
        }
    }

    /// The first registry index holding an instance named `name`, if any.
    /// Its 1-based successor is the handle of that instance.
    pub fn find_instance(&self, name: &str) -> (r: Option<usize>)
        ensures
            match r {
                Some(i) => i < self@.instances.len() && self@.instances[i as int].name == name@
                    && (forall|t: int| 0 <= t < i ==> (#[trigger] self@.instances[t]).name
                    != name@),
                None => forall|t: int| 0 <= t < self@.instances.len() ==> (
                #[trigger] self@.instances[t]).name != name@,
            },
    {
        let mut i: usize = 0;
        while i < self.instances.len()
            invariant
                i <= self@.instances.len(),
                self@.instances.len() == self.instances@.len(),
                forall|t: int| 0 <= t < i ==> (#[trigger] self@.instances[t]).name != name@,
            decreases self.instances@.len() - i,
        {
            let hit = str_eq(self.instances[i].name.as_str(), name);
            proof {
                assert(self@.instances[i as int] == self.instances@[i as int]@);
            }
            if hit {
                return Some(i);
            }
            i = i + 1;
        }
        None
    }

    /// Grow the shared indirect call table by `table_size` slots and
    /// return the base index of the new region.  If the table is still
    /// empty, one null slot is first reserved so that index 0 never
    /// denotes a valid function: 0 is the "not found" sentinel of the
    /// whole ABI.  The embedding program mirrors the growth on the real
    /// table.
    pub fn grow_table(&mut self, table_size: u32) -> (base: u32)
        requires
            ctx_wf(old(self)@),
            old(self)@.table_len + table_size + 1 <= u32::MAX,
        ensures
            ctx_wf(final(self)@),
            base == if old(self)@.table_len == 0 && table_size > 0 {
                1u32
            } else {
                old(self)@.table_len
            },
            final(self)@.table_len == base + table_size,
            final(self)@.instances == old(self)@.instances,
            final(self)@.got_func == old(self)@.got_func,
            final(self)@.got_mem == old(self)@.got_mem,
            final(self)@.error == old(self)@.error,
    {
        if self.table_len == 0 && table_size > 0 {
            self.table_len = 1;
        }
        let base = self.table_len;
        self.table_len = self.table_len + table_size;
        proof {
            assert forall|i: int| 0 <= i < self@.instances.len() implies instance_wf(
                #[trigger] self@.instances[i],
                self@.table_len,
            ) by {
                assert(instance_wf(old(self)@.instances[i], old(self)@.table_len));
            }
            assert forall|i: int| 0 <= i < self@.got_func.len() implies 1 <= (
            #[trigger] self@.got_func[i]).1 < self@.table_len by {
                assert(self@.got_func[i] == old(self)@.got_func[i]);
                assert(1 <= old(self)@.got_func[i].1 < old(self)@.table_len);
            }
            assert forall|a: int, b: int| 0 <= a < b < self@.got_func.len() implies (
            #[trigger] self@.got_func[a]).0 != (#[trigger] self@.got_func[b]).0 by {
                assert(self@.got_func[a] == old(self)@.got_func[a]);
                assert(self@.got_func[b] == old(self)@.got_func[b]);
                assert(old(self)@.got_func[a].0 != old(self)@.got_func[b].0);
            }
            assert forall|a: int, b: int| 0 <= a < b < self@.got_mem.len() implies (
            #[trigger] self@.got_mem[a]).0 != (#[trigger] self@.got_mem[b]).0 by {
                assert(self@.got_mem[a] == old(self)@.got_mem[a]);
                assert(self@.got_mem[b] == old(self)@.got_mem[b]);
                assert(old(self)@.got_mem[a].0 != old(self)@.got_mem[b].0);
            }
        }
        base
    }

    /// Insert a function into the shared indirect call table and bind its
    /// name in the relocation cache: the new slot is the last of the grown
    /// table, never the reserved sentinel 0.  The embedding program
    /// mirrors the insertion on the real table.
    pub fn insert_function(&mut self, function_name: String) -> (slot: u32)
        requires
            ctx_wf(old(self)@),
            spec_got_lookup(old(self)@.got_func, function_name@) is None,
            old(self)@.table_len + 2 <= u32::MAX,
        ensures
            ctx_wf(final(self)@),
            final(self)@.table_len == if old(self)@.table_len == 0 {
                2u32
            } else {
                (old(self)@.table_len + 1) as u32
            },
            slot == final(self)@.table_len - 1,
            1 <= slot < final(self)@.table_len,
            final(self)@.got_func == old(self)@.got_func.push((function_name@, slot)),
            final(self)@.instances == old(self)@.instances,
            final(self)@.got_mem == old(self)@.got_mem,
            final(self)@.error == old(self)@.error,
    {
        if self.table_len == 0 {
            self.table_len = 1;
        }
        self.table_len = self.table_len + 1;
        let slot = self.table_len - 1;
        let ghost prev = self@.got_func;
        proof {
            lemma_got_lookup_none(old(self)@.got_func, function_name@);
        }
        self.got_func.push((function_name, slot));
        proof {
            assert(self@.got_func =~= prev.push((function_name@, slot)));
            assert forall|i: int| 0 <= i < self@.instances.len() implies instance_wf(
                #[trigger] self@.instances[i],
                self@.table_len,
            ) by {
                assert(instance_wf(old(self)@.instances[i], old(self)@.table_len));
            }
            assert forall|i: int| 0 <= i < self@.got_func.len() implies 1 <= (
            #[trigger] self@.got_func[i]).1 < self@.table_len by {
                if i < prev.len() {
                    assert(1 <= old(self)@.got_func[i].1 < old(self)@.table_len);
                }
            }
            assert forall|i: int, j: int| 0 <= i < j < self@.got_func.len() implies (
            #[trigger] self@.got_func[i]).0 != (#[trigger] self@.got_func[j]).0 by {
                if j < prev.len() {
                    assert(self@.got_func[i] == old(self)@.got_func[i]);
                    assert(self@.got_func[j] == old(self)@.got_func[j]);
                    assert(old(self)@.got_func[i].0 != old(self)@.got_func[j].0);
                } else {
                    assert(self@.got_func[i] == old(self)@.got_func[i]);
                    assert(old(self)@.got_func[i].0 != function_name@);
                }
            }
            assert forall|a: int, b: int| 0 <= a < b < self@.got_mem.len() implies (
            #[trigger] self@.got_mem[a]).0 != (#[trigger] self@.got_mem[b]).0 by {
                assert(self@.got_mem[a] == old(self)@.got_mem[a]);
                assert(self@.got_mem[b] == old(self)@.got_mem[b]);
                assert(old(self)@.got_mem[a].0 != old(self)@.got_mem[b].0);
            }
            assert forall|i: int| 0 <= i < self@.got_func.len() implies 1 <= (
            #[trigger] self@.got_func[i]).1 < self@.table_len by {
                if i < prev.len() {
                    assert(self@.got_func[i] == old(self)@.got_func[i]);
                    assert(1 <= old(self)@.got_func[i].1 < old(self)@.table_len);
                }
            }
        }
        slot
    }
}


/// A binding just appended to a cache that lacked one is what lookup now
/// finds.
pub proof fn lemma_got_lookup_push<T>(got: Seq<(Seq<char>, T)>, name: Seq<char>, value: T)
    requires
        spec_got_lookup(got, name) is None,
    ensures
        spec_got_lookup(got.push((name, value)), name) == Some(value),
    decreases got.len(),
{
    if got.len() == 0 {
        assert(got.push((name, value))[0] == (name, value));
    } else {
        assert(got.push((name, value))[0] == got[0]);
        assert(got.push((name, value)).drop_first() =~= got.drop_first().push((name, value)));
        lemma_got_lookup_push(got.drop_first(), name, value);
    }
}

/// The least index whose answer is present, if any.
pub open spec fn spec_first_export(answers: Seq<Option<i32>>) -> Option<int>
    decreases answers.len(),
{
    if answers.len() == 0 {
        None
    } else if answers[0] is Some {
        Some(0)
    } else {
        match spec_first_export(answers.drop_first()) {
            Some(k) => Some(k + 1),
            None => None,
        }
    }
}

proof fn lemma_first_export_at(answers: Seq<Option<i32>>, k: int)
    requires
        0 <= k < answers.len(),
        answers[k] is Some,
        forall|t: int| 0 <= t < k ==> answers[t] is None,
    ensures
        spec_first_export(answers) == Some(k),
    decreases k,
{
    if k > 0 {
        assert(answers.drop_first()[k - 1] == answers[k]);
        assert(forall|t: int| 0 <= t < k - 1 ==> answers.drop_first()[t] == answers[t + 1]);
        lemma_first_export_at(answers.drop_first(), k - 1);
    }
}

proof fn lemma_first_export_none(answers: Seq<Option<i32>>)
    requires
        forall|t: int| 0 <= t < answers.len() ==> answers[t] is None,
    ensures
        spec_first_export(answers) is None,
    decreases answers.len(),
{
    if answers.len() > 0 {
        assert(forall|t: int| 0 <= t < answers.len() - 1 ==> answers.drop_first()[t] == answers[t
            + 1]);
        lemma_first_export_none(answers.drop_first());
    }
}

/// The least index answering `true`, if any.
pub open spec fn spec_first_exporter(answers: Seq<bool>) -> Option<int>
    decreases answers.len(),
{
    if answers.len() == 0 {
        None
    } else if answers[0] {
        Some(0)
    } else {
        match spec_first_exporter(answers.drop_first()) {
            Some(k) => Some(k + 1),
            None => None,
        }
    }
}

proof fn lemma_first_exporter_at(answers: Seq<bool>, k: int)
    requires
        0 <= k < answers.len(),
        answers[k],
        forall|t: int| 0 <= t < k ==> !answers[t],
    ensures
        spec_first_exporter(answers) == Some(k),
    decreases k,
{
    if k > 0 {
        assert(answers.drop_first()[k - 1] == answers[k]);
        assert(forall|t: int| 0 <= t < k - 1 ==> answers.drop_first()[t] == answers[t + 1]);
        lemma_first_exporter_at(answers.drop_first(), k - 1);
    }
}

proof fn lemma_first_exporter_none(answers: Seq<bool>)
    requires
        forall|t: int| 0 <= t < answers.len() ==> !answers[t],
    ensures
        spec_first_exporter(answers) is None,
    decreases answers.len(),
{
    if answers.len() > 0 {
        assert(forall|t: int| 0 <= t < answers.len() - 1 ==> answers.drop_first()[t] == answers[t
            + 1]);
        lemma_first_exporter_none(answers.drop_first());
    }
}

/// Appending a fresh binding to the data cache preserves the context
/// invariants.
proof fn lemma_wf_after_got_mem_push(
    pre: LinkContextView,
    post: LinkContextView,
    name: Seq<char>,
    value: i32,
)
    requires
        ctx_wf(pre),
        spec_got_lookup(pre.got_mem, name) is None,
        post.instances == pre.instances,
        post.got_func == pre.got_func,
        post.table_len == pre.table_len,
        post.error == pre.error,
        post.got_mem == pre.got_mem.push((name, value)),
    ensures
        ctx_wf(post),
{
    lemma_got_lookup_none(pre.got_mem, name);
    assert forall|i: int| 0 <= i < post.instances.len() implies instance_wf(
        #[trigger] post.instances[i],
        post.table_len,
    ) by {
        assert(instance_wf(pre.instances[i], pre.table_len));
    }
    assert forall|i: int, j: int| 0 <= i < j < post.instances.len() implies ranges_disjoint(
        #[trigger] post.instances[i],
        #[trigger] post.instances[j],
    ) by {
        assert(ranges_disjoint(pre.instances[i], pre.instances[j]));
    }
    assert forall|i: int, j: int| 0 <= i < j < post.got_func.len() implies (
    #[trigger] post.got_func[i]).0 != (#[trigger] post.got_func[j]).0 by {
        assert(pre.got_func[i].0 != pre.got_func[j].0);
    }
    assert forall|i: int| 0 <= i < post.got_func.len() implies 1 <= (
    #[trigger] post.got_func[i]).1 < post.table_len by {
        assert(1 <= pre.got_func[i].1 < pre.table_len);
    }
    assert forall|i: int, j: int| 0 <= i < j < post.got_mem.len() implies (
    #[trigger] post.got_mem[i]).0 != (#[trigger] post.got_mem[j]).0 by {
        if j < pre.got_mem.len() {
            assert(post.got_mem[i] == pre.got_mem[i]);
            assert(post.got_mem[j] == pre.got_mem[j]);
            assert(pre.got_mem[i].0 != pre.got_mem[j].0);
        } else {
            assert(post.got_mem[i] == pre.got_mem[i]);
            assert(pre.got_mem[i].0 != name);
        }
    }
}


/// A context whose registry, caches and table are unchanged and whose
/// error channel keeps its bounds stays well formed.
proof fn lemma_wf_components(pre: LinkContextView, post: LinkContextView)
    requires
        ctx_wf(pre),
        post.instances == pre.instances,
        post.got_func == pre.got_func,
        post.got_mem == pre.got_mem,
        post.table_len == pre.table_len,
        post.error.size >= 1,
        post.error.position <= u32::MAX,
    ensures
        ctx_wf(post),
{
    assert forall|i: int| 0 <= i < post.instances.len() implies instance_wf(
        #[trigger] post.instances[i],
        post.table_len,
    ) by {
        assert(instance_wf(pre.instances[i], pre.table_len));
    }
    assert forall|i: int, j: int| 0 <= i < j < post.instances.len() implies ranges_disjoint(
        #[trigger] post.instances[i],
        #[trigger] post.instances[j],
    ) by {
        assert(ranges_disjoint(pre.instances[i], pre.instances[j]));
    }
    assert forall|i: int, j: int| 0 <= i < j < post.got_func.len() implies (
    #[trigger] post.got_func[i]).0 != (#[trigger] post.got_func[j]).0 by {
        assert(pre.got_func[i].0 != pre.got_func[j].0);
    }
    assert forall|i: int, j: int| 0 <= i < j < post.got_mem.len() implies (
    #[trigger] post.got_mem[i]).0 != (#[trigger] post.got_mem[j]).0 by {
        assert(pre.got_mem[i].0 != pre.got_mem[j].0);
    }
    assert forall|i: int| 0 <= i < post.got_func.len() implies 1 <= (
    #[trigger] post.got_func[i]).1 < post.table_len by {
        assert(1 <= pre.got_func[i].1 < pre.table_len);
    }
}

impl LinkContext {
    /// The 1-based handle of the most recently linked module: what a link
    /// run answers once every binary of a closure has been linked or
    /// skipped.
    pub fn current_handle(&self) -> (h: u32)
        requires
            ctx_wf(self@),
        ensures
            h == self@.instances.len(),
    {
        self.instances.len() as u32
    }

    /// Resolve a function-relocation-table import: answer from the cache
    /// when the symbol is already bound — every module importing one
    /// symbol shares one slot — and otherwise, when the caller found a
    /// function of that name among the link namespace's bindings
    /// (`linker_has`), insert it into the shared table and bind it.
    /// Fails when the symbol is bound nowhere.
    pub fn resolve_got_func(&mut self, name: &str, linker_has: bool) -> (r: Result<u32, Error>)
        requires
            ctx_wf(old(self)@),
            old(self)@.table_len + 2 <= u32::MAX,
        ensures
            ctx_wf(final(self)@),
            match spec_got_lookup(old(self)@.got_func, name@) {
                Some(slot) => r == Ok::<u32, Error>(slot) && *final(self) == *old(self),
                None => {
                    if linker_has {
                        &&& r is Ok
                        &&& final(self)@.got_func == old(self)@.got_func.push(
                            (name@, r.unwrap()),
                        )
                        &&& spec_got_lookup(final(self)@.got_func, name@) == Some(r.unwrap())
                        &&& 1 <= r.unwrap() < final(self)@.table_len
                        &&& final(self)@.instances == old(self)@.instances
                        &&& final(self)@.got_mem == old(self)@.got_mem
                        &&& final(self)@.error == old(self)@.error
                    } else {
                        &&& r matches Err(e) && (e matches Error::UnresolvedSymbol(s) && s@
                            == "GOT.func."@ + name@)
                        &&& *final(self) == *old(self)
                    }
                },
            },
    {
        match got_func_find(&self.got_func, name) {
            Some(slot) => Ok(slot),
            None => {
                if linker_has {
                    let slot = self.insert_function(name.to_owned());
                    proof {
                        lemma_got_lookup_push(old(self)@.got_func, name@, slot);
                    }
                    Ok(slot)
                } else {
                    let mut symbol = String::from_str("GOT.func.");
                    symbol.append(name);
                    Err(Error::UnresolvedSymbol(symbol))
                }
            },
        }
    }

    /// Resolve a memory-relocation-table import: answer from the cache
    /// when the symbol is already bound; otherwise take the offset that
    /// the module being linked itself exports, relative to its own
    /// `memory_base`, and failing that the first already-linked instance
    /// exporting the symbol, relative to that instance's base.  The
    /// offsets are the engine's answers, handed in by the caller; the
    /// resolved absolute address is cached for every later module.
    pub fn resolve_got_mem(
        &mut self,
        name: &str,
        memory_base: i32,
        own_offset: Option<i32>,
        others: &Vec<Option<i32>>,
    ) -> (r: Result<i32, Error>)
        requires
            ctx_wf(old(self)@),
            others@.len() == old(self)@.instances.len(),
            own_offset matches Some(off) ==> i32::MIN <= memory_base + off <= i32::MAX,
            forall|k: int| 0 <= k < others@.len() ==> ((#[trigger] others@[k]) matches Some(off)
                ==> i32::MIN <= old(self)@.instances[k].memory_base + off <= i32::MAX),
        ensures
            ctx_wf(final(self)@),
            match spec_got_lookup(old(self)@.got_mem, name@) {
                Some(v) => r == Ok::<i32, Error>(v) && *final(self) == *old(self),
                None => match own_offset {
                    Some(off) => {
                        &&& r matches Ok(v) && v == memory_base + off
                        &&& final(self)@.got_mem == old(self)@.got_mem.push(
                            (name@, (memory_base + off) as i32),
                        )
                        &&& final(self)@.instances == old(self)@.instances
                        &&& final(self)@.got_func == old(self)@.got_func
                        &&& final(self)@.table_len == old(self)@.table_len
                        &&& final(self)@.error == old(self)@.error
                    },
                    None => match spec_first_export(others@) {
                        Some(k) => {
                            &&& r matches Ok(v) && v == old(self)@.instances[k].memory_base
                                + others@[k].unwrap()
                            &&& final(self)@.got_mem == old(self)@.got_mem.push(
                                (name@, (old(self)@.instances[k].memory_base
                                    + others@[k].unwrap()) as i32),
                            )
                            &&& final(self)@.instances == old(self)@.instances
                            &&& final(self)@.got_func == old(self)@.got_func
                            &&& final(self)@.table_len == old(self)@.table_len
                            &&& final(self)@.error == old(self)@.error
                        },
                        None => {
                            &&& r matches Err(e) && (e matches Error::UnresolvedSymbol(s) && s@
                                == "GOT.mem."@ + name@)
                            &&& *final(self) == *old(self)
                        },
                    },
                },
            },
    {
        match got_mem_find(&self.got_mem, name) {
            Some(v) => Ok(v),
            None => {
                match own_offset {
                    Some(off) => {
                        let v = memory_base + off;
                        let ghost prev = self@;
                        self.got_mem.push((name.to_owned(), v));
                        proof {
                            assert(self@.got_mem =~= prev.got_mem.push((name@, v)));
                            lemma_wf_after_got_mem_push(prev, self@, name@, v);
                        }
                        Ok(v)
                    },
                    None => {
                        let mut k: usize = 0;
                        while k < others.len()
                            invariant
                                *self == *old(self),
                                ctx_wf(old(self)@),
                                own_offset is None,
                                spec_got_lookup(old(self)@.got_mem, name@) is None,
                                others@.len() == old(self)@.instances.len(),
                                forall|t: int| 0 <= t < others@.len() ==> ((
                                #[trigger] others@[t]) matches Some(off)
                                    ==> i32::MIN <= old(self)@.instances[t].memory_base + off
                                    <= i32::MAX),
                                k <= others@.len(),
                                forall|t: int| 0 <= t < k ==> others@[t] is None,
                            decreases others@.len() - k,
                        {
                            match others[k] {
                                Some(off) => {
                                    proof {
                                        lemma_first_export_at(others@, k as int);
                                        assert(others@[k as int] matches Some(o) && o == off);
                                        assert(old(self)@.instances[k as int]
                                            == self.instances@[k as int]@);
                                    }
                                    let v = self.instances[k].memory_base + off;
                                    let ghost prev = self@;
                                    self.got_mem.push((name.to_owned(), v));
                                    proof {
                                        assert(self@.got_mem =~= prev.got_mem.push((name@, v)));
                                        lemma_wf_after_got_mem_push(prev, self@, name@, v);
                                    }
                                    return Ok(v);
                                },
                                None => {},
                            }
                            k = k + 1;
                        }
                        proof {
                            lemma_first_export_none(others@);
                        }
                        let mut symbol = String::from_str("GOT.mem.");
                        symbol.append(name);
                        Err(Error::UnresolvedSymbol(symbol))
                    },
                }
            },
        }
    }
}

/// Where an ordinary (`env`) import of a module being linked is bound.
pub enum EnvSource {
    /// The current link namespace already binds the name.
    Linker,
    /// The export of the registry instance at this index binds it.
    Instance { index: usize },
}

/// Mathematical image of an [`EnvSource`].
pub enum EnvSourceView {
    Linker,
    Instance { index: int },
}

impl View for EnvSource {
    type V = EnvSourceView;

    open spec fn view(&self) -> EnvSourceView {
        match self {
            EnvSource::Linker => EnvSourceView::Linker,
            EnvSource::Instance { index } => EnvSourceView::Instance { index: *index as int },
        }
    }
}

impl LinkContext {
    /// Resolve an ordinary import of the module being linked: the current
    /// link namespace wins; otherwise the first already-linked instance
    /// that exports the name.  `in_linker` and `exporters` are the
    /// engine's answers for the name, handed in by the caller.  Fails
    /// when nothing binds the name.
    pub fn resolve_env_import(
        &self,
        name: &str,
        in_linker: bool,
        exporters: &Vec<bool>,
    ) -> (r: Result<EnvSource, Error>)
        requires
            exporters@.len() == self@.instances.len(),
        ensures
            if in_linker {
                r == Ok::<EnvSource, Error>(EnvSource::Linker)
            } else {
                match spec_first_exporter(exporters@) {
                    Some(k) => r matches Ok(src) && src@ == (EnvSourceView::Instance {
                        index: k,
                    }),
                    None => r matches Err(e) && (e matches Error::UnresolvedSymbol(s) && s@
                        == "env::"@ + name@),
                }
            },
    {
        if in_linker {
            return Ok(EnvSource::Linker);
        }
        let mut k: usize = 0;
        while k < exporters.len()
            invariant
                !in_linker,
                k <= exporters@.len(),
                forall|t: int| 0 <= t < k ==> !exporters@[t],
            decreases exporters@.len() - k,
        {
            if exporters[k] {
                proof {
                    lemma_first_exporter_at(exporters@, k as int);
                }
                return Ok(EnvSource::Instance { index: k });
            }
            k = k + 1;
        }
        proof {
            lemma_first_exporter_none(exporters@);
        }
        let mut symbol = String::from_str("env::");
        symbol.append(name);
        Err(Error::UnresolvedSymbol(symbol))
    }
}



// ---------------------------------------------------------------------------
// The registry
// ---------------------------------------------------------------------------

/// What the registry demands of a new entry: the instance fits the
/// context, and its memory and table ranges collide with no entry already
/// present.
pub open spec fn can_push_spec(c: LinkContextView, inst: InstanceInfoView) -> bool {
    &&& instance_wf(inst, c.table_len)
    &&& forall|i: int| 0 <= i < c.instances.len() ==> ranges_disjoint(
        #[trigger] c.instances[i],
        inst,
    )
}

/// Whether the ranges of two instances are disjoint, executed.
fn ranges_disjoint_exec(a: &InstanceInfo, b: &InstanceInfo) -> (r: bool)
    ensures
        r == ranges_disjoint(a@, b@),
{
    match (&a.dylink, &b.dylink) {
        (Some(da), Some(db)) => {
            let mem_ok = da.mem_size == 0 || db.mem_size == 0 || (a.memory_base as i64)
                + (da.mem_size as i64) <= (b.memory_base as i64) || (b.memory_base as i64)
                + (db.mem_size as i64) <= (a.memory_base as i64);
            let table_ok = match (a.table_base, b.table_base) {
                (Some(ta), Some(tb)) => da.table_size == 0 || db.table_size == 0 || (ta as u64)
                    + (da.table_size as u64) <= (tb as u64) || (tb as u64) + (db.table_size
                    as u64) <= (ta as u64),
                _ => true,
            };
            mem_ok && table_ok
        },
        _ => true,
    }
}

impl LinkContext {
    /// Whether `info` may enter the registry: it fits, and it overlaps no
    /// instance already linked.  The embedding program checks this before
    /// registering what the engine allocated.
    pub fn can_push(&self, info: &InstanceInfo) -> (r: bool)
        ensures
            r == can_push_spec(self@, info@),
    {
        let fits = match (&info.dylink) {
            Some(d) => {
                let mem_ok = info.memory_base >= 0 && (info.memory_base as i64) + (d.mem_size
                    as i64) <= (i32::MAX as i64);
                let table_ok = match info.table_base {
                    Some(tb) => (tb as u64) + (d.table_size as u64) <= (self.table_len as u64),
                    None => true,
                };
                mem_ok && table_ok
            },
            None => true,
        };
        if !fits {
            return false;
        }
        let mut i: usize = 0;
        while i < self.instances.len()
            invariant
                instance_wf(info@, self@.table_len),
                i <= self@.instances.len(),
                self@.instances.len() == self.instances@.len(),
                forall|t: int| 0 <= t < i ==> ranges_disjoint(
                    #[trigger] self@.instances[t],
                    info@,
                ),
            decreases self.instances@.len() - i,
        {
            let ok = ranges_disjoint_exec(&self.instances[i], info);
            proof {
                assert(self@.instances[i as int] == self.instances@[i as int]@);
            }
            if !ok {
                return false;
            }
            i = i + 1;
        }
        true
    }

    /// Append a linked module to the registry and answer its 1-based
    /// handle.  A registry entry is appended exactly once per module and
    /// never removed; the caller has established that the new instance
    /// collides with nothing.
    pub fn push_instance(&mut self, info: InstanceInfo) -> (handle: u32)
        requires
            ctx_wf(old(self)@),
            can_push_spec(old(self)@, info@),
            old(self)@.instances.len() + 1 <= u32::MAX,
        ensures
            ctx_wf(final(self)@),
            final(self)@.instances == old(self)@.instances.push(info@),
            handle == final(self)@.instances.len(),
            final(self)@.got_func == old(self)@.got_func,
            final(self)@.got_mem == old(self)@.got_mem,
            final(self)@.table_len == old(self)@.table_len,
            final(self)@.error == old(self)@.error,
    {
        let ghost iv = info@;
        self.instances.push(info);
        proof {
            assert(self@.instances =~= old(self)@.instances.push(iv));
            assert forall|i: int| 0 <= i < self@.instances.len() implies instance_wf(
                #[trigger] self@.instances[i],
                self@.table_len,
            ) by {
                if i < old(self)@.instances.len() {
                    assert(self@.instances[i] == old(self)@.instances[i]);
                    assert(instance_wf(old(self)@.instances[i], old(self)@.table_len));
                }
            }
            assert forall|i: int, j: int| 0 <= i < j < self@.instances.len() implies
                ranges_disjoint(
                #[trigger] self@.instances[i],
                #[trigger] self@.instances[j],
            ) by {
                if j < old(self)@.instances.len() {
                    assert(self@.instances[i] == old(self)@.instances[i]);
                    assert(self@.instances[j] == old(self)@.instances[j]);
                    assert(ranges_disjoint(old(self)@.instances[i], old(self)@.instances[j]));
                } else {
                    assert(self@.instances[i] == old(self)@.instances[i]);
                    assert(ranges_disjoint(old(self)@.instances[i], iv));
                }
            }
            assert forall|i: int, j: int| 0 <= i < j < self@.got_func.len() implies (
            #[trigger] self@.got_func[i]).0 != (#[trigger] self@.got_func[j]).0 by {
                assert(old(self)@.got_func[i].0 != old(self)@.got_func[j].0);
            }
            assert forall|i: int, j: int| 0 <= i < j < self@.got_mem.len() implies (
            #[trigger] self@.got_mem[i]).0 != (#[trigger] self@.got_mem[j]).0 by {
                assert(old(self)@.got_mem[i].0 != old(self)@.got_mem[j].0);
            }
            assert forall|i: int| 0 <= i < self@.got_func.len() implies 1 <= (
            #[trigger] self@.got_func[i]).1 < self@.table_len by {
                assert(1 <= old(self)@.got_func[i].1 < old(self)@.table_len);
            }
        }
        self.instances.len() as u32
    }

    /// Register the entrypoint module, whose offsets are all relative to
    /// zero and which occupies no linked range of its own, and place the
    /// error channel at the guest address the engine's allocator answered
    /// for it.
    pub fn install_main(&mut self, name: String, error_position: u32) -> (handle: u32)
        requires
            ctx_wf(old(self)@),
            old(self)@.instances.len() + 1 <= u32::MAX,
        ensures
            ctx_wf(final(self)@),
            final(self)@.instances == old(self)@.instances.push(
                InstanceInfoView { name: name@, dylink: None, memory_base: 0, table_base: None },
            ),
            handle == final(self)@.instances.len(),
            final(self)@.error.position == error_position as int,
            final(self)@.error.size == old(self)@.error.size,
            final(self)@.error.occurred == old(self)@.error.occurred,
            final(self)@.error.buffer == old(self)@.error.buffer,
            final(self)@.got_func == old(self)@.got_func,
            final(self)@.got_mem == old(self)@.got_mem,
            final(self)@.table_len == old(self)@.table_len,
    {
        self.error.position = error_position as usize;
        proof {
            lemma_wf_components(old(self)@, self@);
        }
        let info = InstanceInfo { name, dylink: None, memory_base: 0, table_base: None };
        proof {
            assert(can_push_spec(self@, info@));
        }
        self.push_instance(info)
    }
}

// ---------------------------------------------------------------------------
// The error channel
// ---------------------------------------------------------------------------

/// What the channel holds after a message is written: the message's
/// bytes, truncated to the channel's capacity, terminated by a NUL byte.
pub open spec fn spec_error_bytes(size: int, message: Seq<char>) -> Seq<u8> {
    let bytes = vstd::utf8::encode_utf8(message);
    let n = if size <= bytes.len() {
        size
    } else {
        bytes.len() as int
    };
    bytes.take(n) + seq![0u8]
}

impl LinkContext {
    /// Write a message into the error channel and arm it: the next
    /// `dlerror` call will report it.  The embedding program mirrors the
    /// buffer into guest memory at the channel's position.
    pub fn write_error(&mut self, error_message: &str)
        requires
            ctx_wf(old(self)@),
        ensures
            ctx_wf(final(self)@),
            final(self)@.error.occurred,
            final(self)@.error.buffer == spec_error_bytes(
                old(self)@.error.size,
                error_message@,
            ),
            final(self)@.error.size == old(self)@.error.size,
            final(self)@.error.position == old(self)@.error.position,
            final(self)@.instances == old(self)@.instances,
            final(self)@.got_func == old(self)@.got_func,
            final(self)@.got_mem == old(self)@.got_mem,
            final(self)@.table_len == old(self)@.table_len,
    {
        let bytes = error_message.as_bytes();
        let n = if self.error.size <= bytes.len() {
            self.error.size
        } else {
            bytes.len()
        };
        let truncated = slice_subrange(bytes, 0, n);
        let mut buffer = slice_to_vec(truncated);
        buffer.push(0u8);
        proof {
            assert(error_message.spec_bytes().subrange(0, n as int)
                =~= error_message.spec_bytes().take(n as int));
            assert(buffer@ =~= error_message.spec_bytes().take(n as int) + seq![0u8]);
        }
        self.error.occurred = true;
        self.error.buffer = buffer;
        proof {
            lemma_wf_components(old(self)@, self@);
        }
    }

    /// Drain the error channel: 0 when no error is pending, else the
    /// guest address of the stored message; the pending flag is cleared,
    /// so a second immediate call answers 0.
    pub fn dlerror(&mut self) -> (r: u32)
        requires
            ctx_wf(old(self)@),
        ensures
            ctx_wf(final(self)@),
            !old(self)@.error.occurred ==> r == 0 && *final(self) == *old(self),
            old(self)@.error.occurred ==> r == old(self)@.error.position
                && !final(self)@.error.occurred && final(self)@.error.size
                == old(self)@.error.size && final(self)@.error.position
                == old(self)@.error.position && final(self)@.error.buffer
                == old(self)@.error.buffer && final(self)@.instances == old(self)@.instances
                && final(self)@.got_func == old(self)@.got_func && final(self)@.got_mem
                == old(self)@.got_mem && final(self)@.table_len == old(self)@.table_len,
    {
        if !self.error.occurred {
            0
        } else {
            self.error.occurred = false;
            proof {
                lemma_wf_components(old(self)@, self@);
            }
            self.error.position as u32
        }
    }

    /// Recover from a failed loading-ABI call: render the error into the
    /// channel and answer the guest-visible failure value 0.
    pub fn report_failure(&mut self, e: &Error) -> (r: u32)
        requires
            ctx_wf(old(self)@),
        ensures
            ctx_wf(final(self)@),
            r == 0,
            final(self)@.error.occurred,
            final(self)@.error.buffer == spec_error_bytes(
                old(self)@.error.size,
                e.message_view(),
            ),
            final(self)@.error.size == old(self)@.error.size,
            final(self)@.error.position == old(self)@.error.position,
            final(self)@.instances == old(self)@.instances,
            final(self)@.got_func == old(self)@.got_func,
            final(self)@.got_mem == old(self)@.got_mem,
            final(self)@.table_len == old(self)@.table_len,
    {
        let message = e.message();
        self.write_error(message.as_str());
        0
    }
}

// ---------------------------------------------------------------------------
// The dynamic-loading ABI
// ---------------------------------------------------------------------------

/// Where `dlsym` finds its symbol: already bound in the relocation cache,
/// or still to be looked up among the exports of the instance at the given
/// registry index.
pub enum SymbolSource {
    Cached { slot: u32 },
    Export { instance: usize },
}

impl LinkContext {
    /// The lookup step of `dlsym`: a symbol already bound in the
    /// relocation cache is answered at once, shared across handles;
    /// otherwise the handle must denote a registry entry, whose export of
    /// that name the embedding program then queries.
    pub fn dlsym(&self, handle: i32, function_name: &str) -> (r: Result<SymbolSource, Error>)
        ensures
            match spec_got_lookup(self@.got_func, function_name@) {
                Some(slot) => r matches Ok(s) && s matches SymbolSource::Cached { slot: c } && c
                    == slot,
                None => {
                    if 1 <= handle && handle <= self@.instances.len() {
                        r matches Ok(s) && (s matches SymbolSource::Export { instance } && instance
                            == handle - 1)
                    } else {
                        r matches Err(e) && (e matches Error::HandleOutOfRange(h) && h == handle)
                    }
                },
            },
    {
        match got_func_find(&self.got_func, function_name) {
            Some(slot) => Ok(SymbolSource::Cached { slot }),
            None => {
                if handle >= 1 && (handle as usize) <= self.instances.len() {
                    Ok(SymbolSource::Export { instance: (handle as usize) - 1 })
                } else {
                    Err(Error::HandleOutOfRange(handle))
                }
            },
        }
    }

    /// The insertion step of `dlsym`, given the engine's answer whether
    /// the instance exports a callable function of that name: bind the
    /// symbol to a fresh table slot, or answer the slot a concurrent
    /// binding already holds; fail when the export is missing or not
    /// callable.
    pub fn dlsym_insert(&mut self, function_name: &str, found: bool) -> (r: Result<u32, Error>)
        requires
            ctx_wf(old(self)@),
            old(self)@.table_len + 2 <= u32::MAX,
        ensures
            ctx_wf(final(self)@),
            match spec_got_lookup(old(self)@.got_func, function_name@) {
                Some(slot) => r == Ok::<u32, Error>(slot) && *final(self) == *old(self),
                None => {
                    if found {
                        &&& r is Ok
                        &&& final(self)@.got_func == old(self)@.got_func.push(
                            (function_name@, r.unwrap()),
                        )
                        &&& spec_got_lookup(final(self)@.got_func, function_name@) == Some(
                            r.unwrap(),
                        )
                        &&& 1 <= r.unwrap() < final(self)@.table_len
                        &&& final(self)@.instances == old(self)@.instances
                        &&& final(self)@.got_mem == old(self)@.got_mem
                        &&& final(self)@.error == old(self)@.error
                    } else {
                        &&& r matches Err(e) && (e matches Error::NotAFunction(s) && s@
                            == function_name@)
                        &&& *final(self) == *old(self)
                    }
                },
            },
    {
        match got_func_find(&self.got_func, function_name) {
            Some(slot) => Ok(slot),
            None => {
                if found {
                    let slot = self.insert_function(function_name.to_owned());
                    proof {
                        lemma_got_lookup_push(old(self)@.got_func, function_name@, slot);
                    }
                    Ok(slot)
                } else {
                    Err(Error::NotAFunction(function_name.to_owned()))
                }
            },
        }
    }
}

/// The first registry index of an instance named `name`.
pub open spec fn spec_find_instance(instances: Seq<InstanceInfoView>, name: Seq<char>) -> Option<
    int,
>
    decreases instances.len(),
{
    if instances.len() == 0 {
        None
    } else if instances[0].name == name {
        Some(0)
    } else {
        match spec_find_instance(instances.drop_first(), name) {
            Some(i) => Some(i + 1),
            None => None,
        }
    }
}

proof fn lemma_find_instance_at(instances: Seq<InstanceInfoView>, name: Seq<char>, k: int)
    requires
        0 <= k < instances.len(),
        instances[k].name == name,
        forall|t: int| 0 <= t < k ==> (#[trigger] instances[t]).name != name,
    ensures
        spec_find_instance(instances, name) == Some(k),
    decreases k,
{
    if k > 0 {
        assert(instances.drop_first()[k - 1] == instances[k]);
        assert(forall|t: int| 0 <= t < k - 1 ==> instances.drop_first()[t] == instances[t + 1]);
        lemma_find_instance_at(instances.drop_first(), name, k - 1);
    }
}

proof fn lemma_find_instance_none(instances: Seq<InstanceInfoView>, name: Seq<char>)
    requires
        forall|t: int| 0 <= t < instances.len() ==> (#[trigger] instances[t]).name != name,
    ensures
        spec_find_instance(instances, name) is None,
    decreases instances.len(),
{
    if instances.len() > 0 {
        assert(forall|t: int| 0 <= t < instances.len() - 1 ==> instances.drop_first()[t]
            == instances[t + 1]);
        lemma_find_instance_none(instances.drop_first(), name);
    }
}

/// What `dlopen` answers for a resolved dependency: the handle of the
/// module when it is already linked, else the order to load it.
#[derive(Debug)]
pub enum DlopenStep {
    Loaded { handle: u32 },
    Load { dependency: crate::manager::Dependency },
}

/// Mathematical image of a [`DlopenStep`].
pub enum DlopenStepView {
    Loaded { handle: int },
    Load { dependency: crate::manager::DependencyView },
}

impl View for DlopenStep {
    type V = DlopenStepView;

    open spec fn view(&self) -> DlopenStepView {
        match self {
            DlopenStep::Loaded { handle } => DlopenStepView::Loaded { handle: *handle as int },
            DlopenStep::Load { dependency } => DlopenStepView::Load { dependency: dependency@ },
        }
    }
}

/// The dependency that `caller`'s metadata declares under `id`, if any.
pub open spec fn spec_resolve_dep(
    m: crate::manager::ManagerView,
    caller: Seq<char>,
    id: Seq<char>,
) -> Option<crate::manager::DependencyView> {
    match crate::manager::spec_lookup_metadata(m.metadata, caller) {
        Some(md) => crate::manager::spec_lookup_dependency(md.dependencies, id),
        None => None,
    }
}

/// What `dlopen` does once the dependency is resolved, as a function of
/// the registry alone.
pub open spec fn spec_dlopen_resolved(
    c: LinkContextView,
    d: crate::manager::DependencyView,
) -> DlopenStepView {
    match spec_find_instance(c.instances, d.id) {
        Some(i) => DlopenStepView::Loaded { handle: i + 1 },
        None => DlopenStepView::Load { dependency: d },
    }
}

/// The decision core of `dlopen`: resolve the symbolic `id` relative to
/// the caller's declared dependencies; when the resolved module is already
/// in the registry, answer its 1-based handle at once — an idempotent
/// re-open, which allocates and links nothing (the context is not even
/// mutable here).  Otherwise hand back the dependency to load and link.  A
/// failure is returned for the caller to write to the error channel and
/// report as handle 0.
pub fn dlopen(
    manager: &mut crate::manager::Manager,
    ctx: &LinkContext,
    caller_module: &str,
    id: &str,
) -> (r: Result<DlopenStep, Error>)
    requires
        ctx_wf(ctx@),
    ensures
        *final(manager) == *old(manager),
        r is Ok <==> spec_resolve_dep(old(manager)@, caller_module@, id@) is Some,
        r matches Ok(step) ==> step@ == spec_dlopen_resolved(
            ctx@,
            spec_resolve_dep(old(manager)@, caller_module@, id@).unwrap(),
        ),
        r matches Err(e) ==> match e {
            Error::ModuleNotFound(m) => m@ == caller_module@
                && crate::manager::spec_lookup_metadata(
                old(manager)@.metadata,
                caller_module@,
            ) is None,
            Error::DependencyNotFound { module, dependency } => module@ == caller_module@
                && dependency@ == id@ && crate::manager::spec_lookup_metadata(
                old(manager)@.metadata,
                caller_module@,
            ) is Some,
            _ => false,
        },
{
    let dependency = match manager.resolve_id(caller_module, id) {
        Ok(d) => d,
        Err(e) => {
            return Err(e);
        },
    };
    match ctx.find_instance(dependency.id.as_str()) {
        Some(i) => {
            proof {
                lemma_find_instance_at(ctx@.instances, dependency@.id, i as int);
            }
            Ok(DlopenStep::Loaded { handle: (i as u32) + 1 })
        },
        None => {
            proof {
                lemma_find_instance_none(ctx@.instances, dependency@.id);
            }
            Ok(DlopenStep::Load { dependency })
        },
    }
}

// ---------------------------------------------------------------------------
// Laws
// ---------------------------------------------------------------------------

/// Idempotence of `dlopen`: once the registry holds an instance of the
/// resolved module at index `i`, opening it again answers the handle
/// `i + 1` — the same handle every time — and performs no allocation: the
/// already-loaded answer is a function of the registry alone and touches
/// no table, no memory and no cache.
pub proof fn lemma_dlopen_idempotent(
    c: LinkContextView,
    d: crate::manager::DependencyView,
    i: int,
)
    requires
        0 <= i < c.instances.len(),
        c.instances[i].name == d.id,
        forall|t: int| 0 <= t < i ==> (#[trigger] c.instances[t]).name != d.id,
    ensures
        spec_dlopen_resolved(c, d) == (DlopenStepView::Loaded { handle: i + 1 }),
{
    lemma_find_instance_at(c.instances, d.id, i);
}

/// No two instances of a well-formed context overlap: the memory ranges
/// `[memory_base, memory_base + mem_size)` and the table ranges
/// `[table_base, table_base + table_size)` of distinct registry entries
/// are pairwise disjoint.
pub proof fn lemma_registry_disjoint(c: LinkContextView, i: int, j: int)
    requires
        ctx_wf(c),
        0 <= i < c.instances.len(),
        0 <= j < c.instances.len(),
        i != j,
    ensures
        ranges_disjoint(c.instances[i], c.instances[j]),
{
    if i < j {
        assert(ranges_disjoint(c.instances[i], c.instances[j]));
    } else {
        assert(ranges_disjoint(c.instances[j], c.instances[i]));
    }
}


} // verus!
