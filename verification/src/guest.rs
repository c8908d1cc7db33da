//! Data types of the guest command-line tool: the guest kinds, the
//! top-level options, and one argument struct per subcommand.
//!
//! Parsing of the actual command line stays outside the library; these
//! types carry the parsed values, and the functions here compute what the
//! tool derives from them.

use vstd::prelude::*;

verus! {

/// The kinds of guest that can be managed.
#[derive(Clone, Copy, Debug, PartialEq, Eq, Structural)]
pub enum GuestType {
    Debian,
    Termina,
    Zircon,
}

impl GuestType {
    /// The name of the manager protocol that controls this kind of guest.
    pub fn guest_manager_interface(&self) -> (r: &'static str)
        ensures
            r@ == match *self {
                GuestType::Zircon => "fuchsia.virtualization.ZirconGuestManager"@,
                GuestType::Debian => "fuchsia.virtualization.DebianGuestManager"@,
                GuestType::Termina => "fuchsia.virtualization.TerminaGuestManager"@,
            },
    {
        match *self {
            GuestType::Zircon => "fuchsia.virtualization.ZirconGuestManager",
            GuestType::Debian => "fuchsia.virtualization.DebianGuestManager",
            GuestType::Termina => "fuchsia.virtualization.TerminaGuestManager",
        }
    }

    /// The lower-case name under which this kind of guest is written on
    /// the command line.
    pub fn name(&self) -> (r: &'static str)
        ensures
            r@ == match *self {
                GuestType::Debian => "debian"@,
                GuestType::Termina => "termina"@,
                GuestType::Zircon => "zircon"@,
            },
    {
        match *self {
            GuestType::Debian => "debian",
            GuestType::Termina => "termina",
            GuestType::Zircon => "zircon",
        }
    }
}

/// Top-level command.
#[derive(Debug, PartialEq)]
pub struct GuestOptions {
    pub nested: SubCommands,
}

/// The subcommands of the tool.
#[derive(Debug, PartialEq)]
pub enum SubCommands {
    Launch(LaunchArgs),
    Balloon(BalloonArgs),
    BalloonStats(BalloonStatsArgs),
    Serial(SerialArgs),
    List(ListArgs),
    Socat(SocatArgs),
    SocatListen(SocatListenArgs),
    Vsh(VshArgs),
    Wipe(WipeArgs),
}

/// Modify the size of a guest's memory balloon.
#[derive(Clone, Copy, Debug, PartialEq, Eq, Structural)]
pub struct BalloonArgs {
    pub guest_type: GuestType,
    pub num_pages: u32,
}

/// See the stats of a guest's memory balloon.
#[derive(Clone, Copy, Debug, PartialEq, Eq, Structural)]
pub struct BalloonStatsArgs {
    pub guest_type: GuestType,
}

/// Access the serial output for a guest.
#[derive(Clone, Copy, Debug, PartialEq, Eq, Structural)]
pub struct SerialArgs {
    pub guest_type: GuestType,
}

/// List existing guest environments.
#[derive(Clone, Copy, Debug, PartialEq, Eq, Structural)]
pub struct ListArgs {}

/// Create a socat connection on the specified port.
#[derive(Clone, Copy, Debug, PartialEq, Eq, Structural)]
pub struct SocatArgs {
    pub guest_type: GuestType,
    pub port: u32,
}

/// Listen through socat on the specified port.
#[derive(Clone, Copy, Debug, PartialEq, Eq, Structural)]
pub struct SocatListenArgs {
    pub guest_type: GuestType,
    pub host_port: u32,
}

/// Create a virtual shell for a guest, or connect via virtual shell.
#[derive(Debug, PartialEq)]
pub struct VshArgs {
    pub port: Option<u32>,
    pub args: Vec<String>,
}

/// Clear the stateful data for the target guest.
#[derive(Clone, Copy, Debug, PartialEq, Eq, Structural)]
pub struct WipeArgs {
    pub guest_type: GuestType,
}

/// Launch a guest image.
#[derive(Debug, PartialEq)]
pub struct LaunchArgs {
    pub guest_type: GuestType,
    pub cmdline_add: Vec<String>,
    pub default_net: bool,
    pub memory: Option<u64>,
    pub cpus: Option<u8>,
    pub interrupt: Vec<u32>,
    pub virtio_balloon: bool,
    pub virtio_console: bool,
    pub virtio_gpu: bool,
    pub virtio_rng: bool,
    pub virtio_sound: bool,
    pub virtio_sound_input: bool,
    pub virtio_vsock: bool,
}

impl LaunchArgs {
    /// Launch arguments for `guest_type` with every option at its default:
    /// all virtio devices on except sound input, a default net device, and
    /// no extra command line, memory, cpu or interrupt settings.
    pub fn new(guest_type: GuestType) -> (r: Self)
        ensures
            r.guest_type == guest_type,
            r.cmdline_add@ == Seq::<String>::empty(),
            r.default_net == true,
            r.memory is None,
            r.cpus is None,
            r.interrupt@ == Seq::<u32>::empty(),
            r.virtio_balloon == true,
            r.virtio_console == true,
            r.virtio_gpu == true,
            r.virtio_rng == true,
            r.virtio_sound == true,
            r.virtio_sound_input == false,
            r.virtio_vsock == true,
    {
        LaunchArgs {
            guest_type,
            cmdline_add: Vec::new(),
            default_net: true,
            memory: None,
            cpus: None,
            interrupt: Vec::new(),
            virtio_balloon: true,
            virtio_console: true,
            virtio_gpu: true,
            virtio_rng: true,
            virtio_sound: true,
            virtio_sound_input: false,
            virtio_vsock: true,
        }
    }
}

} // verus!
