//! A spring: one proxied connection, seen from the side that batches its data into tanks.
use crate::shipment::SpringTank;
use crate::uid::UniqueId;
use crate::utils::SocksHost;
use vstd::prelude::*;

verus! {

/// The most bytes of a spring that one tank carries.
pub const MAX_READ: usize = 15728640;

/// How many bytes the client gathers from its springs for one shipment before it stops reading
/// further springs.
pub const CLIENT_BATCH_LIMIT: usize = 15728640;

/// How many bytes the server gathers from a ship's springs for one response before it stops
/// reading further springs.
pub const SERVER_BATCH_LIMIT: usize = 7340032;

/// The tanks gathered from a ship's springs for one shipment, how many bytes they carry, and
/// the springs that ended and leave the ship.
pub struct TankBatch {
    pub tanks: Vec<SpringTank>,
    pub ended: Vec<UniqueId>,
    pub collected: usize,
    pub limit: usize,
}

impl TankBatch {
    /// No two tanks of the batch belong to the same spring.
    pub open spec fn wf(&self) -> bool {
        forall|i: int, j: int|
            0 <= i < j < self.tanks@.len() ==> #[trigger] self.tanks@[i].id != #[trigger] self.tanks@[j].id
    }

    /// Whether the batch holds a tank of the spring `id`.
    pub fn holds(&self, id: UniqueId) -> (r: bool)
        ensures
            r == exists|i: int| 0 <= i < self.tanks@.len() && #[trigger] self.tanks@[i].id == id,
    {
        let n = self.tanks.len();
        for i in 0..n
            invariant
                n == self.tanks@.len(),
                forall|j: int| 0 <= j < i ==> #[trigger] self.tanks@[j].id != id,
        {
            if self.tanks[i].id == id {
                return true;
            }
        }
        false
    }

    /// An empty batch that stops reading springs once `limit` bytes are gathered.
    pub fn new(limit: usize) -> (r: TankBatch)
        ensures
            r.tanks@.len() == 0,
            r.ended@.len() == 0,
            r.collected == 0,
            r.limit == limit,
            r.wf(),
    {
        TankBatch { tanks: Vec::new(), ended: Vec::new(), collected: 0, limit }
    }

    /// Whether the batch has gathered its limit, so that no further spring is read.
    pub fn full(&self) -> (r: bool)
        ensures
            r == (self.collected >= self.limit),
    {
        self.collected >= self.limit
    }

    /// Adds the tank read from one spring: its bytes count toward the limit; it is kept when
    /// it carries data or ends its spring; the spring of an ending tank leaves the ship.
    pub fn add(&mut self, tank: SpringTank)
        requires
            forall|i: int| 0 <= i < old(self).tanks@.len() ==> #[trigger] old(self).tanks@[i].id != tank.id,
        ensures
            old(self).wf() ==> final(self).wf(),
            final(self).collected == (if old(self).collected + tank.data@.len() > usize::MAX {
                usize::MAX as int
            } else {
                old(self).collected + tank.data@.len()
            }),
            final(self).tanks@ == (if tank.ended || tank.data@.len() > 0 {
                old(self).tanks@.push(tank)
            } else {
                old(self).tanks@
            }),
            final(self).ended@ == (if tank.ended {
                old(self).ended@.push(tank.id)
            } else {
                old(self).ended@
            }),
            final(self).limit == old(self).limit,
    {
        self.collected = self.collected.saturating_add(tank.data.len());
        if tank.ended {
            self.ended.push(tank.id);
        }
        if Spring::worth_shipping(&tank) {
            self.tanks.push(tank);
        }
    }
}

/// The identity of a spring: its id, target and user. The live parts (the channel to the
/// connection, the pending bytes and the ended flag) are held beside it by the tasks that do
/// the I/O.
#[derive(Debug)]
pub struct Spring {
    pub id: UniqueId,
    pub host: SocksHost,
    pub port: u16,
    pub user: Option<String>,
}

impl Spring {
    /// Moves up to `MAX_READ` bytes from the front of the spring's pending bytes to the end of
    /// `data`. Returns whether the spring has ended, which reading never finds.
    pub fn read_data(pending: &mut Vec<u8>, data: &mut Vec<u8>) -> (ended: bool)
        ensures
            ({
                let n = if old(pending)@.len() < MAX_READ {
                    old(pending)@.len()
                } else {
                    MAX_READ as nat
                };
                &&& final(data)@ == old(data)@ + old(pending)@.take(n as int)
                &&& final(pending)@ == old(pending)@.skip(n as int)
            }),
            !ended,
    {
        let len = pending.len();
        let max_read = if len < MAX_READ {
            len
        } else {
            MAX_READ
        };
        let mut rest = pending.split_off(max_read);
        data.append(pending);
        pending.append(&mut rest);
        false
    }

    /// The tank of the spring: whether it has ended, as recorded in `ended`, and, while it has
    /// not, its pending data (up to `MAX_READ` bytes), taken from `pending`. An ended spring
    /// sends no more data.
    pub fn to_tank(&self, ended: bool, pending: &mut Vec<u8>) -> (tank: SpringTank)
        ensures
            ({
                let n = if old(pending)@.len() < MAX_READ {
                    old(pending)@.len()
                } else {
                    MAX_READ as nat
                };
                &&& tank@.data == if ended {
                    Seq::empty()
                } else {
                    old(pending)@.take(n as int)
                }
                &&& final(pending)@ == if ended {
                    old(pending)@
                } else {
                    old(pending)@.skip(n as int)
                }
            }),
            tank.id == self.id,
            tank.port == self.port,
            tank@.host == self.host@,
            tank.ended == ended,
    {
        let mut data = Vec::new();
        let ghost empty = data@;
        let ended = ended || Spring::read_data(pending, &mut data);
        assert(empty + old(pending)@.take(data@.len() as int) =~= old(pending)@.take(
            data@.len() as int,
        ));
        SpringTank { id: self.id, port: self.port, host: self.host.duplicate(), ended, data }
    }

    /// Whether a tank is worth sending: it carries data or ends its spring.
    pub fn worth_shipping(tank: &SpringTank) -> (r: bool)
        ensures
            r == (tank.ended || tank.data@.len() > 0),
    {
        tank.ended || tank.data.len() > 0
    }
}

} // verus!
