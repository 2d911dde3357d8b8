//! The start of the backend, step by step: each step says what is to be done and
//! what is to be told next.
use crate::backend::{
    after_build, after_load, autostart_step, cache_source, Autostart, CacheLoad, CacheSource,
    StartStep, EMPTY_INDEX, EMPTY_REFRESH, NO_DRIVES,
};
use crate::num::ago;
use vstd::prelude::*;

verus! {

/// What the start waits to be told.
#[derive(Clone, Copy, PartialEq, Eq, Structural)]
pub enum BootStage {
    Drives,
    Folders,
    Caches,
    Leftovers,
    Marker,
    Startup,
    Load,
    Build,
    Over,
}

/// What the start is told.
#[derive(Clone, Copy, PartialEq, Eq, Structural)]
pub enum BootEvent {
    /// Whether any volume was found.
    Drives(bool),
    /// Whether the data folder of the earlier name is there, and the present one.
    Folders { earlier: bool, current: bool },
    /// Which files of the cache are there: in its place, under the earlier name,
    /// and in the folder for temporary files.
    Caches { in_place: bool, earlier: bool, temporary: bool },
    /// Whether the data folder of the earlier name is there, and a cache in it.
    Leftovers { folder: bool, cache: bool },
    /// Whether the mark of an earlier run is there.
    Marker(bool),
    /// Whether the logon task, the startup shortcut, and the mark of a repair are
    /// there.
    Startup { task: bool, shortcut: bool, repaired: bool },
    /// What came of loading the index, how many entries it has, and the time in
    /// milliseconds.
    Loaded { load: CacheLoad, count: usize, now: u64 },
    /// Whether building an index read anything.
    Built(bool),
}

/// What is to be done next.
pub enum BootAction {
    /// Look for volumes.
    FindDrives,
    /// Look for the data folders.
    FindFolders,
    /// Move the earlier folder if so told, make the folder of the cache, and look
    /// for the files of the cache.
    FindCaches { move_folder: bool },
    /// Bring the cache into its place from there, and look for what is left.
    FindLeftovers { source: CacheSource },
    /// Remove the earlier folder if so told, and look for the mark.
    FindMarker { sweep: bool },
    /// Set the mark if so told, and look how the program is started.
    FindStartup { set_marker: bool },
    /// See to starting with the system, and load the index.
    Load { autostart: Autostart },
    /// Build an index; show that it is the first one if so told.
    Build { first_run: bool },
    /// Serve what was loaded with these words, and build an index meanwhile.
    Refresh(String),
    /// Watch the volumes.
    Watch,
    /// Stop, with these words.
    Stop(String),
    /// Nothing: this is not what the start waits for.
    Wait,
}

/// The start of the backend: what it waits for, whether this is the first run,
/// and whether an index is served while another is built.
pub struct Boot {
    pub stage: BootStage,
    pub first_run: bool,
    pub refresh: bool,
}

/// The start waits for this.
pub open spec fn expects(stage: BootStage, e: BootEvent) -> bool {
    match e {
        BootEvent::Drives(_) => stage == BootStage::Drives,
        BootEvent::Folders { .. } => stage == BootStage::Folders,
        BootEvent::Caches { .. } => stage == BootStage::Caches,
        BootEvent::Leftovers { .. } => stage == BootStage::Leftovers,
        BootEvent::Marker(_) => stage == BootStage::Marker,
        BootEvent::Startup { .. } => stage == BootStage::Startup,
        BootEvent::Loaded { .. } => stage == BootStage::Load,
        BootEvent::Built(_) => stage == BootStage::Build,
    }
}

/// The start after it is told something.
pub open spec fn boot_after(b: Boot, e: BootEvent) -> Boot {
    if !expects(b.stage, e) {
        b
    } else {
        match e {
            BootEvent::Drives(any) => Boot {
                stage: if any {
                    BootStage::Folders
                } else {
                    BootStage::Over
                },
                ..b
            },
            BootEvent::Folders { .. } => Boot { stage: BootStage::Caches, ..b },
            BootEvent::Caches { .. } => Boot { stage: BootStage::Leftovers, ..b },
            BootEvent::Leftovers { .. } => Boot { stage: BootStage::Marker, ..b },
            BootEvent::Marker(there) => Boot { stage: BootStage::Startup, first_run: !there, ..b },
            BootEvent::Startup { .. } => Boot { stage: BootStage::Load, ..b },
            BootEvent::Loaded { load, .. } => match load {
                CacheLoad::Scanning => Boot { stage: BootStage::Build, refresh: false, ..b },
                CacheLoad::Provisional { .. } => Boot {
                    stage: BootStage::Build,
                    refresh: true,
                    ..b
                },
                CacheLoad::Ready => Boot { stage: BootStage::Over, ..b },
            },
            BootEvent::Built(_) => Boot { stage: BootStage::Over, ..b },
        }
    }
}

/// What is to be done when the start is told something.
pub open spec fn boot_acts(b: Boot, e: BootEvent, a: BootAction) -> bool {
    if !expects(b.stage, e) {
        a is Wait
    } else {
        match e {
            BootEvent::Drives(any) => if any {
                a is FindFolders
            } else {
                a is Stop && a->Stop_0@ == NO_DRIVES@
            },
            BootEvent::Folders { earlier, current } => a == (BootAction::FindCaches {
                move_folder: earlier && !current,
            }),
            BootEvent::Caches { in_place, earlier, temporary } => a == (BootAction::FindLeftovers {
                source: if in_place {
                    CacheSource::InPlace
                } else if earlier {
                    CacheSource::Earlier
                } else if temporary {
                    CacheSource::Temporary
                } else {
                    CacheSource::InPlace
                },
            }),
            BootEvent::Leftovers { folder, cache } => a == (BootAction::FindMarker {
                sweep: folder && !cache,
            }),
            BootEvent::Marker(there) => a == (BootAction::FindStartup { set_marker: !there }),
            BootEvent::Startup { task, shortcut, repaired } => a == (BootAction::Load {
                autostart: if b.first_run && !task && !shortcut {
                    Autostart::Create
                } else if shortcut && !task {
                    Autostart::Migrate
                } else if task && !repaired {
                    Autostart::Repair
                } else {
                    Autostart::Leave
                },
            }),
            BootEvent::Loaded { load, count, now } => match load {
                CacheLoad::Scanning => a == (BootAction::Build { first_run: b.first_run }),
                CacheLoad::Provisional { snapshot_secs } => a is Refresh && a->Refresh_0@
                    == "Index loaded from snapshot ("@ + ago(if now / 1000 > snapshot_secs {
                    now as int / 1000 - snapshot_secs
                } else {
                    0
                }) + ") — refreshing…"@,
                CacheLoad::Ready => if count == 0 {
                    a is Stop && a->Stop_0@ == EMPTY_INDEX@
                } else {
                    a is Watch
                },
            },
            BootEvent::Built(any) => if any {
                a is Watch
            } else if b.refresh {
                a is Stop && a->Stop_0@ == EMPTY_REFRESH@
            } else {
                a is Stop && a->Stop_0@ == EMPTY_INDEX@
            },
        }
    }
}

/// The step as an action.
fn action_of(step: StartStep) -> (a: BootAction)
    ensures
        match step {
            StartStep::Build { first_run } => a == (BootAction::Build { first_run }),
            StartStep::Refresh(words) => a == BootAction::Refresh(words),
            StartStep::Watch => a is Watch,
            StartStep::Stop(words) => a == BootAction::Stop(words),
        },
{
    match step {
        StartStep::Build { first_run } => BootAction::Build { first_run },
        StartStep::Refresh(words) => BootAction::Refresh(words),
        StartStep::Watch => BootAction::Watch,
        StartStep::Stop(words) => BootAction::Stop(words),
    }
}

impl Boot {
    /// The start, before anything was told. The first thing to do is to look for
    /// volumes.
    pub fn new() -> (r: Boot)
        ensures
            r == (Boot { stage: BootStage::Drives, first_run: false, refresh: false }),
    {
        Boot { stage: BootStage::Drives, first_run: false, refresh: false }
    }

    /// Tells the start something, and says what is to be done next.
    pub fn start_backend(&mut self, e: BootEvent) -> (a: BootAction)
        ensures
            *final(self) == boot_after(*old(self), e),
            boot_acts(*old(self), e, a),
    {
        match (self.stage, e) {
            (BootStage::Drives, BootEvent::Drives(any)) => {
                if any {
                    self.stage = BootStage::Folders;
                    BootAction::FindFolders
                } else {
                    self.stage = BootStage::Over;
                    BootAction::Stop(NO_DRIVES.to_owned())
                }
            },
            (BootStage::Folders, BootEvent::Folders { earlier, current }) => {
                self.stage = BootStage::Caches;
                BootAction::FindCaches { move_folder: earlier && !current }
            },
            (BootStage::Caches, BootEvent::Caches { in_place, earlier, temporary }) => {
                self.stage = BootStage::Leftovers;
                BootAction::FindLeftovers { source: cache_source(in_place, earlier, temporary) }
            },
            (BootStage::Leftovers, BootEvent::Leftovers { folder, cache }) => {
                self.stage = BootStage::Marker;
                BootAction::FindMarker { sweep: folder && !cache }
            },
            (BootStage::Marker, BootEvent::Marker(there)) => {
                self.stage = BootStage::Startup;
                self.first_run = !there;
                BootAction::FindStartup { set_marker: !there }
            },
            (BootStage::Startup, BootEvent::Startup { task, shortcut, repaired }) => {
                self.stage = BootStage::Load;
                BootAction::Load {
                    autostart: autostart_step(self.first_run, task, shortcut, repaired),
                }
            },
            (BootStage::Load, BootEvent::Loaded { load, count, now }) => {
                match load {
                    CacheLoad::Scanning => {
                        self.stage = BootStage::Build;
                        self.refresh = false;
                    },
                    CacheLoad::Provisional { .. } => {
                        self.stage = BootStage::Build;
                        self.refresh = true;
                    },
                    CacheLoad::Ready => {
                        self.stage = BootStage::Over;
                    },
                }
                action_of(after_load(load, self.first_run, count, now))
            },
            (BootStage::Build, BootEvent::Built(any)) => {
                self.stage = BootStage::Over;
                action_of(after_build(self.refresh, any))
            },
            _ => BootAction::Wait,
        }
    }
}

/// An index without entries is never watched as if it were one: the start leads
/// to watching only from a loaded index with entries, or from one in which
/// something was read.
pub proof fn law_empty_index_is_never_presented(b: Boot, e: BootEvent, a: BootAction)
    requires
        boot_acts(b, e, a),
        a is Watch,
    ensures
        e == BootEvent::Built(true) || (e is Loaded && e->count > 0 && e->load == CacheLoad::Ready),
{
}

/// The start comes to an end: each thing it waits for brings it further.
pub proof fn law_start_goes_forward(b: Boot, e: BootEvent)
    requires
        expects(b.stage, e),
    ensures
        stage_number(boot_after(b, e).stage) > stage_number(b.stage),
{
}

/// The place of a stage.
pub open spec fn stage_number(s: BootStage) -> int {
    match s {
        BootStage::Drives => 0,
        BootStage::Folders => 1,
        BootStage::Caches => 2,
        BootStage::Leftovers => 3,
        BootStage::Marker => 4,
        BootStage::Startup => 5,
        BootStage::Load => 6,
        BootStage::Build => 7,
        BootStage::Over => 8,
    }
}

/// A run is the first one exactly where no marker was there; the marker is then
/// set, and only then is starting with the system set up without being asked for.
pub proof fn law_first_run_has_no_marker(b: Boot, there: bool, e: BootEvent, a: BootAction)
    requires
        b.stage == BootStage::Marker,
    ensures
        boot_after(b, BootEvent::Marker(there)).first_run == !there,
        boot_acts(b, BootEvent::Marker(there), a) ==> a == (BootAction::FindStartup {
            set_marker: !there,
        }),
        ({
            let next = boot_after(b, BootEvent::Marker(there));
            boot_acts(next, e, a) && a is Load && a->autostart == Autostart::Create ==> !there
                && e == (BootEvent::Startup { task: false, shortcut: false, repaired: e->repaired })
        }),
{
}

/// What the start is not waiting for changes nothing.
pub proof fn law_start_waits_for_one_thing(b: Boot, e: BootEvent, a: BootAction)
    requires
        boot_acts(b, e, a),
    ensures
        a is Wait ==> boot_after(b, e) == b,
        b.stage == BootStage::Over ==> a is Wait,
        boot_after(b, e).stage == b.stage ==> a is Wait,
        a is Stop || a is Watch ==> boot_after(b, e).stage == BootStage::Over,
{
    lemma_start_moves(b, e);
}

proof fn lemma_start_moves(b: Boot, e: BootEvent)
    ensures
        expects(b.stage, e) ==> boot_after(b, e).stage != b.stage,
{
    if expects(b.stage, e) {
        law_start_goes_forward(b, e);
    }
}

/// A folder of an earlier version is moved only where it would take no place. The
/// cache is taken from where there is one, from its own place before the earlier
/// one and from that before the temporary one. A folder is swept only where it
/// holds no cache.
pub proof fn law_where_the_cache_comes_from(b: Boot, e: BootEvent, a: BootAction)
    requires
        expects(b.stage, e),
        boot_acts(b, e, a),
    ensures
        e matches BootEvent::Folders { earlier, current } ==> {
            &&& a is FindCaches
            &&& a->move_folder ==> earlier && !current
            &&& earlier && !current ==> a->move_folder
        },
        e matches BootEvent::Caches { in_place, earlier, temporary } ==> {
            &&& a is FindLeftovers
            &&& in_place ==> a->source == CacheSource::InPlace
            &&& a->source == CacheSource::Earlier <==> earlier && !in_place
            &&& a->source == CacheSource::Temporary <==> temporary && !earlier && !in_place
        },
        e matches BootEvent::Leftovers { folder, cache } ==> {
            &&& a is FindMarker
            &&& a->sweep <==> folder && !cache
        },
        e matches BootEvent::Drives(any) ==> {
            &&& any ==> a is FindFolders
            &&& !any ==> a is Stop
        },
{
}

/// The launcher enters itself among the programs that start with the system only
/// on its first run, and only where it is not entered in either way. A shortcut
/// becomes a task, a task that was not repaired is repaired, and else nothing is
/// changed.
pub proof fn law_when_the_start_is_entered(b: Boot, e: BootEvent, a: BootAction)
    requires
        expects(b.stage, e),
        boot_acts(b, e, a),
    ensures
        e matches BootEvent::Startup { task, shortcut, repaired } ==> {
            &&& a is Load
            &&& a->autostart == Autostart::Create <==> b.first_run && !task && !shortcut
            &&& a->autostart == Autostart::Migrate <==> shortcut && !task
            &&& a->autostart == Autostart::Repair <==> task && !repaired
            &&& task && repaired ==> a->autostart == Autostart::Leave
            &&& !b.first_run && !task && !shortcut ==> a->autostart == Autostart::Leave
        },
{
}

/// An index that was loaded whole ends the start. Otherwise one is built: to take
/// the place of the one that is served meanwhile, or as the first.
pub proof fn law_what_is_built_for(b: Boot, load: CacheLoad, e: BootEvent)
    requires
        b.stage == BootStage::Load,
        e matches BootEvent::Loaded { load: l, .. } && l == load,
    ensures
        load == CacheLoad::Ready <==> boot_after(b, e).stage == BootStage::Over,
        load != CacheLoad::Ready <==> boot_after(b, e).stage == BootStage::Build,
        load is Provisional ==> boot_after(b, e).refresh,
        load == CacheLoad::Scanning ==> !boot_after(b, e).refresh,
        boot_after(b, e).first_run == b.first_run,
{
}

} // verus!
