//! Socket address vectors and the shadow relation between them.
//!
//! An address vector is either a listening address (an optional local IP,
//! a local identifier such as a port, and an optional device binding) or a
//! connected address (local and remote IP/identifier pairs plus an optional
//! device binding).  A more specific address *shadows* a less specific one
//! that would also match the same incoming traffic: an address with a device
//! bound shadows the same address without the device, a listening address
//! with a local IP shadows the wildcard listening address with the same
//! identifier, and a connected address shadows the listening addresses with
//! the same local IP and identifier.

use vstd::prelude::*;

verus! {

/// The IP portion of a listening socket address: an optional local IP
/// (`None` means "any") and a local identifier (e.g. a port number).
#[derive(Clone, Copy, Debug, PartialEq, Eq, Hash, Structural)]
pub struct ListenerIpAddr {
    pub addr: Option<u32>,
    pub identifier: u16,
}

/// The address of a listening socket: IP portion plus an optional device
/// binding.
#[derive(Clone, Copy, Debug, PartialEq, Eq, Hash, Structural)]
pub struct ListenerAddr {
    pub ip: ListenerIpAddr,
    pub device: Option<u32>,
}

/// The IP portion of a connected socket address: local and remote IP and
/// identifier.
#[derive(Clone, Copy, Debug, PartialEq, Eq, Hash, Structural)]
pub struct ConnIpAddr {
    pub local_ip: u32,
    pub local_identifier: u16,
    pub remote_ip: u32,
    pub remote_identifier: u16,
}

/// The address of a connected socket: IP portion plus an optional device
/// binding.
#[derive(Clone, Copy, Debug, PartialEq, Eq, Hash, Structural)]
pub struct ConnAddr {
    pub ip: ConnIpAddr,
    pub device: Option<u32>,
}

/// An address vector: the key type of the bound-socket map.  Listening and
/// connected sockets are keyed independently but share one address space.
#[derive(Clone, Copy, Debug, PartialEq, Eq, Hash, Structural)]
pub enum AddrVec {
    Listen(ListenerAddr),
    Conn(ConnAddr),
}

/// The sequence of address vectors that `a` shadows, most specific first.
///
/// The sequence is strictly less specific than `a` at every position: it
/// never contains `a` itself (see [`lemma_shadow_seq_strict`]).
pub open spec fn shadow_seq(a: AddrVec) -> Seq<AddrVec> {
    match a {
        AddrVec::Listen(l) => match (l.ip.addr, l.device) {
            (Option::None, Option::None) => seq![],
            (Option::Some(_), Option::None) => seq![
                AddrVec::Listen(ListenerAddr {
                    ip: ListenerIpAddr { addr: None, identifier: l.ip.identifier },
                    device: None,
                }),
            ],
            (Option::None, Option::Some(_)) => seq![
                AddrVec::Listen(ListenerAddr {
                    ip: ListenerIpAddr { addr: None, identifier: l.ip.identifier },
                    device: None,
                }),
            ],
            (Option::Some(ip), Option::Some(d)) => seq![
                AddrVec::Listen(ListenerAddr {
                    ip: ListenerIpAddr { addr: Some(ip), identifier: l.ip.identifier },
                    device: None,
                }),
                AddrVec::Listen(ListenerAddr {
                    ip: ListenerIpAddr { addr: None, identifier: l.ip.identifier },
                    device: Some(d),
                }),
                AddrVec::Listen(ListenerAddr {
                    ip: ListenerIpAddr { addr: None, identifier: l.ip.identifier },
                    device: None,
                }),
            ],
        },
        AddrVec::Conn(c) => match c.device {
            Option::None => seq![
                AddrVec::Listen(ListenerAddr {
                    ip: ListenerIpAddr {
                        addr: Some(c.ip.local_ip),
                        identifier: c.ip.local_identifier,
                    },
                    device: None,
                }),
                AddrVec::Listen(ListenerAddr {
                    ip: ListenerIpAddr { addr: None, identifier: c.ip.local_identifier },
                    device: None,
                }),
            ],
            Option::Some(d) => seq![
                AddrVec::Conn(ConnAddr { ip: c.ip, device: None }),
                AddrVec::Listen(ListenerAddr {
                    ip: ListenerIpAddr {
                        addr: Some(c.ip.local_ip),
                        identifier: c.ip.local_identifier,
                    },
                    device: Some(d),
                }),
                AddrVec::Listen(ListenerAddr {
                    ip: ListenerIpAddr {
                        addr: Some(c.ip.local_ip),
                        identifier: c.ip.local_identifier,
                    },
                    device: None,
                }),
                AddrVec::Listen(ListenerAddr {
                    ip: ListenerIpAddr { addr: None, identifier: c.ip.local_identifier },
                    device: Some(d),
                }),
                AddrVec::Listen(ListenerAddr {
                    ip: ListenerIpAddr { addr: None, identifier: c.ip.local_identifier },
                    device: None,
                }),
            ],
        },
    }
}

/// `b` shadows `a`: `b` is strictly more specific than `a` and would receive
/// traffic that also matches `a`.
pub open spec fn shadows(b: AddrVec, a: AddrVec) -> bool {
    shadow_seq(b).contains(a)
}

/// An address vector never shadows itself.
pub proof fn lemma_shadow_seq_strict(a: AddrVec)
    ensures
        !shadow_seq(a).contains(a),
{
    assert forall|i: int| 0 <= i < shadow_seq(a).len() implies shadow_seq(a)[i] != a by {
        match a {
            AddrVec::Listen(l) => {}
            AddrVec::Conn(c) => {}
        }
    }
}

/// Computes the shadow sequence of `a`: every address that `a` shadows,
/// most specific first.  The result is derived from the structure of `a`
/// alone.
pub fn iter_shadows(a: &AddrVec) -> (r: Vec<AddrVec>)
    ensures
        r@ == shadow_seq(*a),
{
    let mut v: Vec<AddrVec> = Vec::new();
    match a {
        AddrVec::Listen(l) => {
            match (l.ip.addr, l.device) {
                (None, None) => {}
                (Some(ip), None) => {
                    v.push(AddrVec::Listen(ListenerAddr {
                        ip: ListenerIpAddr { addr: None, identifier: l.ip.identifier },
                        device: None,
                    }));
                }
                (None, Some(d)) => {
                    v.push(AddrVec::Listen(ListenerAddr {
                        ip: ListenerIpAddr { addr: None, identifier: l.ip.identifier },
                        device: None,
                    }));
                }
                (Some(ip), Some(d)) => {
                    v.push(AddrVec::Listen(ListenerAddr {
                        ip: ListenerIpAddr { addr: Some(ip), identifier: l.ip.identifier },
                        device: None,
                    }));
                    v.push(AddrVec::Listen(ListenerAddr {
                        ip: ListenerIpAddr { addr: None, identifier: l.ip.identifier },
                        device: Some(d),
                    }));
                    v.push(AddrVec::Listen(ListenerAddr {
                        ip: ListenerIpAddr { addr: None, identifier: l.ip.identifier },
                        device: None,
                    }));
                }
            }
        }
        AddrVec::Conn(c) => {
            match c.device {
                None => {
                    v.push(AddrVec::Listen(ListenerAddr {
                        ip: ListenerIpAddr {
                            addr: Some(c.ip.local_ip),
                            identifier: c.ip.local_identifier,
                        },
                        device: None,
                    }));
                    v.push(AddrVec::Listen(ListenerAddr {
                        ip: ListenerIpAddr { addr: None, identifier: c.ip.local_identifier },
                        device: None,
                    }));
                }
                Some(d) => {
                    v.push(AddrVec::Conn(ConnAddr { ip: c.ip, device: None }));
                    v.push(AddrVec::Listen(ListenerAddr {
                        ip: ListenerIpAddr {
                            addr: Some(c.ip.local_ip),
                            identifier: c.ip.local_identifier,
                        },
                        device: Some(d),
                    }));
                    v.push(AddrVec::Listen(ListenerAddr {
                        ip: ListenerIpAddr {
                            addr: Some(c.ip.local_ip),
                            identifier: c.ip.local_identifier,
                        },
                        device: None,
                    }));
                    v.push(AddrVec::Listen(ListenerAddr {
                        ip: ListenerIpAddr { addr: None, identifier: c.ip.local_identifier },
                        device: Some(d),
                    }));
                    v.push(AddrVec::Listen(ListenerAddr {
                        ip: ListenerIpAddr { addr: None, identifier: c.ip.local_identifier },
                        device: None,
                    }));
                }
            }
        }
    }
    proof {
        assert(v@ =~= shadow_seq(*a));
    }
    v
}

/// Decides whether `b` shadows `a`.
pub fn shadows_addr(b: &AddrVec, a: &AddrVec) -> (r: bool)
    ensures
        r == shadows(*b, *a),
{
    let sh = iter_shadows(b);
    let mut i: usize = 0;
    let n = sh.len();
    while i < n
        invariant
            n == sh.len(),
            sh@ == shadow_seq(*b),
            i <= n,
            forall|j: int| 0 <= j < i ==> sh@[j] != *a,
        decreases n - i,
    {
        if sh[i] == *a {
            return true;
        }
        i += 1;
    }
    proof {
        if shadow_seq(*b).contains(*a) {
            let j = choose|j: int| 0 <= j < shadow_seq(*b).len() && shadow_seq(*b)[j] == *a;
            assert(false);
        }
    }
    false
}

} // verus!
