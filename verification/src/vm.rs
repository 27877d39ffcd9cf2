//! The runtime host as a state machine. The host shell owns the live
//! interpreter and performs its work — building the runtime, installing
//! globals, importing the entry module, awaiting the idle drain — and
//! reports each outcome to these transitions, which order startup, guest
//! execution and shutdown, and decide the fatal exits of startup.

use crate::module::ModuleRegistry;
use vstd::prelude::*;

verus! {

/// The lifecycle of the runtime host.
#[derive(Clone, Copy, PartialEq, Eq, Structural, Debug)]
pub enum VmState {
    Uninitialized,
    Initialized,
    Running,
    Idling,
    Terminated,
}

/// The five reserved module names are pairwise distinct.
proof fn lemma_reserved_names_distinct()
    ensures
        "events"@ != "fs"@,
        "events"@ != "os"@,
        "events"@ != "path"@,
        "events"@ != "process"@,
        "fs"@ != "os"@,
        "fs"@ != "path"@,
        "fs"@ != "process"@,
        "os"@ != "path"@,
        "os"@ != "process"@,
        "path"@ != "process"@,
{
    reveal_strlit("events");
    reveal_strlit("fs");
    reveal_strlit("os");
    reveal_strlit("path");
    reveal_strlit("process");
    assert("events"@.len() == 6);
    assert("fs"@.len() == 2);
    assert("os"@.len() == 2);
    assert("path"@.len() == 4);
    assert("process"@.len() == 7);
    assert("fs"@[0] == 'f');
    assert("os"@[0] == 'o');
}

/// The module registry every machine starts from: the reserved native
/// module names in registration order, each bound to the identity of its
/// host initializer, none yet materialized.
pub fn create_module_instances() -> (r: ModuleRegistry)
    ensures
        r.wf(),
        r.entries@.len() == 5,
        r.entries@[0].name@ == "events"@,
        r.entries@[1].name@ == "fs"@,
        r.entries@[2].name@ == "os"@,
        r.entries@[3].name@ == "path"@,
        r.entries@[4].name@ == "process"@,
        forall|i: int|
            0 <= i < 5 ==> !(#[trigger] r.entries@[i]).initialized && r.entries@[i].init_id == i,
{
    let mut r = ModuleRegistry::new();
    r.register(String::from_str("events"), 0);
    proof {
        assert(r.entries@[0].name@ == "events"@);
    }
    proof {
        assert forall|j: int| 0 <= j < r.names().len() implies (#[trigger] r.names()[j])@
            != "fs"@ by {
            lemma_reserved_names_distinct();
            assert(r.names()[j] == r.entries@[j].name);
        }
        crate::module::lemma_absent_name(r.names(), "fs"@);
    }
    r.register(String::from_str("fs"), 1);
    proof {
        assert(r.entries@[0].name@ == "events"@);
        assert(r.entries@[1].name@ == "fs"@);
    }
    proof {
        assert forall|j: int| 0 <= j < r.names().len() implies (#[trigger] r.names()[j])@
            != "os"@ by {
            lemma_reserved_names_distinct();
            assert(r.names()[j] == r.entries@[j].name);
        }
        crate::module::lemma_absent_name(r.names(), "os"@);
    }
    r.register(String::from_str("os"), 2);
    proof {
        assert(r.entries@[0].name@ == "events"@);
        assert(r.entries@[1].name@ == "fs"@);
        assert(r.entries@[2].name@ == "os"@);
    }
    proof {
        assert forall|j: int| 0 <= j < r.names().len() implies (#[trigger] r.names()[j])@
            != "path"@ by {
            lemma_reserved_names_distinct();
            assert(r.names()[j] == r.entries@[j].name);
        }
        crate::module::lemma_absent_name(r.names(), "path"@);
    }
    r.register(String::from_str("path"), 3);
    proof {
        assert(r.entries@[0].name@ == "events"@);
        assert(r.entries@[1].name@ == "fs"@);
        assert(r.entries@[2].name@ == "os"@);
        assert(r.entries@[3].name@ == "path"@);
    }
    proof {
        assert forall|j: int| 0 <= j < r.names().len() implies (#[trigger] r.names()[j])@
            != "process"@ by {
            lemma_reserved_names_distinct();
            assert(r.names()[j] == r.entries@[j].name);
        }
        crate::module::lemma_absent_name(r.names(), "process"@);
    }
    r.register(String::from_str("process"), 4);
    proof {
        assert(r.entries@[0].name@ == "events"@);
        assert(r.entries@[1].name@ == "fs"@);
        assert(r.entries@[2].name@ == "os"@);
        assert(r.entries@[3].name@ == "path"@);
        assert(r.entries@[4].name@ == "process"@);
    }
    r
}

/// The runtime host: the interpreter's single execution context advances
/// only along these states, and nothing of the guest runs before the
/// loader is installed and the machine initialized.
pub struct VirtualMachine {
    pub state: VmState,
    pub registry: ModuleRegistry,
    pub globals_installed: bool,
}

impl VirtualMachine {
    /// A freshly constructed host: interpreter and context exist, but the
    /// loader pipeline is not yet installed, so no guest code can run.
    pub fn new() -> (vm: VirtualMachine)
        ensures
            vm.state == VmState::Uninitialized,
            vm.registry.wf(),
            vm.registry.entries@.len() == 0,
            !vm.globals_installed,
    {
        VirtualMachine {
            state: VmState::Uninitialized,
            registry: ModuleRegistry::new(),
            globals_installed: false,
        }
    }

    /// Installs the composed resolver and loader pipeline — native modules
    /// first, file patterns second. Only once this completes is the
    /// machine initialized.
    pub fn install_loader(&mut self, registry: ModuleRegistry)
        requires
            old(self).state == VmState::Uninitialized,
            registry.wf(),
        ensures
            final(self).state == VmState::Initialized,
            final(self).registry == registry,
            final(self).globals_installed == old(self).globals_installed,
    {
        self.registry = registry;
        self.state = VmState::Initialized;
    }

    /// Installs the host globals (the synchronous `require` import helper
    /// among them) into the execution context; `install_ok` reports the
    /// host shell's outcome. A failure here is a startup precondition
    /// failure: the process must exit with status 1, never continue.
    pub fn init(&mut self, install_ok: bool) -> (exit: Option<i32>)
        requires
            old(self).state == VmState::Initialized,
        ensures
            final(self).state == VmState::Initialized,
            final(self).registry == old(self).registry,
            install_ok ==> (exit matches None) && final(self).globals_installed,
            !install_ok ==> (exit matches Some(c) && c == 1) && final(self).globals_installed
                == old(self).globals_installed,
    {
        if install_ok {
            self.globals_installed = true;
            None
        } else {
            Some(1)
        }
    }

    /// Starts the guest entry module; `load_ok` reports whether resolution
    /// and evaluation succeeded. An uncaught failure — a missing entry, a
    /// parse error, a thrown guest exception — exits the process with
    /// status 1; success puts the machine in its running state.
    pub fn run_module(&mut self, load_ok: bool) -> (exit: Option<i32>)
        requires
            old(self).state == VmState::Initialized,
            old(self).globals_installed,
        ensures
            final(self).registry == old(self).registry,
            final(self).globals_installed,
            load_ok ==> final(self).state == VmState::Running && (exit matches None),
            !load_ok ==> final(self).state == old(self).state && (exit matches Some(c) && c == 1),
    {
        if load_ok {
            self.state = VmState::Running;
            None
        } else {
            Some(1)
        }
    }

    /// Enters the idle drain: every outstanding asynchronous continuation,
    /// microtask and timer the guest scheduled still runs to completion.
    pub fn begin_idle(&mut self)
        requires
            old(self).state == VmState::Running,
        ensures
            final(self).state == VmState::Idling,
            final(self).registry == old(self).registry,
            final(self).globals_installed == old(self).globals_installed,
    {
        self.state = VmState::Idling;
    }

    /// Finishes the drain and releases the context and the runtime.
    pub fn finish_idle(&mut self)
        requires
            old(self).state == VmState::Idling,
        ensures
            final(self).state == VmState::Terminated,
            final(self).registry == old(self).registry,
            final(self).globals_installed == old(self).globals_installed,
    {
        self.state = VmState::Terminated;
    }

    /// The whole idle phase: drains outstanding asynchronous work, then
    /// releases the machine.
    pub fn idle(&mut self)
        requires
            old(self).state == VmState::Running,
        ensures
            final(self).state == VmState::Terminated,
            final(self).registry == old(self).registry,
            final(self).globals_installed == old(self).globals_installed,
    {
        self.begin_idle();
        self.finish_idle();
    }

    /// The process status of a normal completion: zero, and only after
    /// the idle drain has finished.
    pub fn exit_code(&self) -> (code: i32)
        requires
            self.state == VmState::Terminated,
        ensures
            code == 0,
    {
        0
    }
}

} // verus!
