//! Shipments: the batches of spring data that travel between the two ends of the tunnel.
use crate::uid::UniqueId;
use crate::utils::{
    host_wf, host_wire, lemma_host_parse_wf, lemma_host_roundtrip, parse_host, HostView, SocksHost,
};
use crate::wire::{
    flag_byte, lemma_le_roundtrip, lemma_split, parse_u16_le, parse_u32_le, parse_u64_le, parse_u8,
    read_u16_le, read_u32_le, read_u64_le, read_u8, rest, write_bytes, write_u16_le, write_u32_le,
    write_u64_le, write_u8, WireError,
};
use vstd::bytes::{spec_u16_to_le_bytes, spec_u32_to_le_bytes, spec_u64_to_le_bytes};
use vstd::prelude::*;

verus! {

/// The data of one spring (one proxied connection) carried by a shipment.
#[derive(Debug, Clone)]
pub struct SpringTank {
    pub id: UniqueId,
    pub ended: bool,
    pub host: SocksHost,
    pub port: u16,
    pub data: Vec<u8>,
}

/// A numbered batch of tanks that belongs to one ship (one tunnel session).
#[derive(Debug, Clone)]
pub struct Shipment {
    pub ship_id: UniqueId,
    pub order: u64,
    pub order_request: u64,
    pub reset: bool,
    pub tanks: Vec<SpringTank>,
}

/// The mathematical value of a tank.
pub struct TankView {
    pub id: UniqueId,
    pub ended: bool,
    pub host: HostView,
    pub port: u16,
    pub data: Seq<u8>,
}

/// The mathematical value of a shipment.
pub struct ShipmentView {
    pub ship_id: UniqueId,
    pub order: u64,
    pub order_request: u64,
    pub reset: bool,
    pub tanks: Seq<TankView>,
}

impl View for SpringTank {
    type V = TankView;

    open spec fn view(&self) -> TankView {
        TankView {
            id: self.id,
            ended: self.ended,
            host: self.host@,
            port: self.port,
            data: self.data@,
        }
    }
}

impl View for Shipment {
    type V = ShipmentView;

    open spec fn view(&self) -> ShipmentView {
        ShipmentView {
            ship_id: self.ship_id,
            order: self.order,
            order_request: self.order_request,
            reset: self.reset,
            tanks: self.tanks@.map_values(|t: SpringTank| t@),
        }
    }
}

/// A tank that the wire form can carry: a well-formed host and at most `u32::MAX` data bytes.
pub open spec fn tank_wf(t: TankView) -> bool {
    host_wf(t.host) && t.data.len() <= u32::MAX
}

/// A shipment that the wire form can carry: at most `u16::MAX` tanks, each well-formed.
pub open spec fn shipment_wf(s: ShipmentView) -> bool {
    s.tanks.len() <= u16::MAX && forall|i: int| 0 <= i < s.tanks.len() ==> tank_wf(#[trigger] s.tanks[i])
}

/// Wire form of a tank: id, ended flag, host, port (little-endian), data length (`u32`,
/// little-endian) and the data.
pub open spec fn tank_wire(t: TankView) -> Seq<u8> {
    t.id.wire() + seq![flag_byte(t.ended)] + host_wire(t.host) + spec_u16_to_le_bytes(t.port)
        + spec_u32_to_le_bytes(t.data.len() as u32) + t.data
}

/// Wire form of a sequence of tanks, one after the other.
pub open spec fn tanks_wire(ts: Seq<TankView>) -> Seq<u8>
    decreases ts.len(),
{
    if ts.len() == 0 {
        Seq::empty()
    } else {
        tank_wire(ts[0]) + tanks_wire(ts.drop_first())
    }
}

/// Wire form of a shipment: ship id, order and order request (`u64`, little-endian), reset
/// flag, number of tanks (`u16`, little-endian) and the tanks.
pub open spec fn shipment_wire(s: ShipmentView) -> Seq<u8> {
    s.ship_id.wire() + spec_u64_to_le_bytes(s.order) + spec_u64_to_le_bytes(s.order_request)
        + seq![flag_byte(s.reset)] + spec_u16_to_le_bytes(s.tanks.len() as u16) + tanks_wire(
        s.tanks,
    )
}

/// Decoding of a tank from the front of `s`. A flag byte stands for true exactly when it is 1.
pub open spec fn parse_tank(s: Seq<u8>) -> Result<(TankView, nat), WireError> {
    match UniqueId::parse(s) {
        Err(e) => Err(e),
        Ok((id, n1)) => match parse_u8(s.skip(n1 as int)) {
            Err(e) => Err(e),
            Ok((ended, n2)) => match parse_host(s.skip((n1 + n2) as int)) {
                Err(e) => Err(e),
                Ok((host, n3)) => match parse_u16_le(s.skip((n1 + n2 + n3) as int)) {
                    Err(e) => Err(e),
                    Ok((port, n4)) => match parse_u32_le(s.skip((n1 + n2 + n3 + n4) as int)) {
                        Err(e) => Err(e),
                        Ok((len, n5)) => {
                            let start = n1 + n2 + n3 + n4 + n5;
                            if s.len() >= start + len {
                                Ok(
                                    (
                                        TankView {
                                            id,
                                            ended: ended == 1,
                                            host,
                                            port,
                                            data: s.subrange(start as int, start + len),
                                        },
                                        (start + len) as nat,
                                    ),
                                )
                            } else {
                                Err(WireError::Eof)
                            }
                        },
                    },
                },
            },
        },
    }
}

/// Decoding of `count` tanks one after the other from the front of `s`.
pub open spec fn parse_tanks(s: Seq<u8>, count: nat) -> Result<(Seq<TankView>, nat), WireError>
    decreases count,
{
    if count == 0 {
        Ok((Seq::empty(), 0))
    } else {
        match parse_tank(s) {
            Err(e) => Err(e),
            Ok((t, n)) => match parse_tanks(s.skip(n as int), (count - 1) as nat) {
                Err(e) => Err(e),
                Ok((ts, m)) => Ok((seq![t] + ts, n + m)),
            },
        }
    }
}

/// Decoding of a shipment from the front of `s`.
pub open spec fn parse_shipment(s: Seq<u8>) -> Result<(ShipmentView, nat), WireError> {
    match UniqueId::parse(s) {
        Err(e) => Err(e),
        Ok((ship_id, n1)) => match parse_u64_le(s.skip(n1 as int)) {
            Err(e) => Err(e),
            Ok((order, n2)) => match parse_u64_le(s.skip((n1 + n2) as int)) {
                Err(e) => Err(e),
                Ok((order_request, n3)) => match parse_u8(s.skip((n1 + n2 + n3) as int)) {
                    Err(e) => Err(e),
                    Ok((reset, n4)) => match parse_u16_le(s.skip((n1 + n2 + n3 + n4) as int)) {
                        Err(e) => Err(e),
                        Ok((count, n5)) => {
                            let start = n1 + n2 + n3 + n4 + n5;
                            match parse_tanks(s.skip(start as int), count as nat) {
                                Err(e) => Err(e),
                                Ok((tanks, n6)) => Ok(
                                    (
                                        ShipmentView {
                                            ship_id,
                                            order,
                                            order_request,
                                            reset: reset == 1,
                                            tanks,
                                        },
                                        start + n6,
                                    ),
                                ),
                            }
                        },
                    },
                },
            },
        },
    }
}


/// A tank decodes back from its wire form, whatever follows it.
pub proof fn lemma_tank_roundtrip(t: TankView, tail: Seq<u8>)
    requires
        tank_wf(t),
    ensures
        parse_tank(tank_wire(t) + tail) == Ok::<(TankView, nat), WireError>(
            (t, tank_wire(t).len()),
        ),
{
    lemma_le_roundtrip();
    let p1 = t.id.wire();
    let p2 = seq![flag_byte(t.ended)];
    let p3 = host_wire(t.host);
    let p4 = spec_u16_to_le_bytes(t.port);
    let p5 = spec_u32_to_le_bytes(t.data.len() as u32);
    let p6 = t.data;
    let w = tank_wire(t) + tail;
    let r5 = p6 + tail;
    let r4 = p5 + r5;
    let r3 = p4 + r4;
    let r2 = p3 + r3;
    let r1 = p2 + r2;
    assert(w =~= p1 + r1);
    t.id.lemma_wire_parse(r1);
    lemma_split(p1, r1);
    lemma_split(p2, r2);
    assert(w.skip(p1.len() as int) == r1);
    assert(r1.skip(1) == r2);
    assert(w.skip((p1.len() + 1) as int) =~= r2);
    lemma_host_roundtrip(t.host, r3);
    lemma_split(p3, r3);
    assert(w.skip((p1.len() + 1 + p3.len()) as int) =~= r3);
    lemma_split(p4, r4);
    assert(r3.take(2) == p4);
    assert(w.skip((p1.len() + 1 + p3.len() + 2) as int) =~= r4);
    lemma_split(p5, r5);
    assert(r4.take(4) == p5);
    let start = p1.len() + 1 + p3.len() + 2 + 4;
    assert(w.subrange(start as int, (start + t.data.len()) as int) =~= p6);
    assert(tank_wire(t).len() == start + t.data.len());
}

/// Tanks decode back from their wire form, whatever follows them.
pub proof fn lemma_tanks_roundtrip(ts: Seq<TankView>, tail: Seq<u8>)
    requires
        forall|i: int| 0 <= i < ts.len() ==> tank_wf(#[trigger] ts[i]),
    ensures
        parse_tanks(tanks_wire(ts) + tail, ts.len()) == Ok::<(Seq<TankView>, nat), WireError>(
            (ts, tanks_wire(ts).len()),
        ),
    decreases ts.len(),
{
    if ts.len() == 0 {
        assert(tanks_wire(ts) + tail =~= tail);
        assert(ts =~= Seq::<TankView>::empty());
    } else {
        let first = tank_wire(ts[0]);
        let others = ts.drop_first();
        let r = tanks_wire(others) + tail;
        assert(tanks_wire(ts) + tail =~= first + r);
        assert(tank_wf(ts[0]));
        lemma_tank_roundtrip(ts[0], r);
        lemma_split(first, r);
        assert forall|i: int| 0 <= i < others.len() implies tank_wf(#[trigger] others[i]) by {
            assert(others[i] == ts[i + 1]);
        }
        lemma_tanks_roundtrip(others, tail);
        assert(seq![ts[0]] + others =~= ts);
    }
}

/// A shipment decodes back from its wire form, whatever follows it.
pub proof fn lemma_shipment_roundtrip(s: ShipmentView, tail: Seq<u8>)
    requires
        shipment_wf(s),
    ensures
        parse_shipment(shipment_wire(s) + tail) == Ok::<(ShipmentView, nat), WireError>(
            (s, shipment_wire(s).len()),
        ),
{
    lemma_le_roundtrip();
    let p1 = s.ship_id.wire();
    let p2 = spec_u64_to_le_bytes(s.order);
    let p3 = spec_u64_to_le_bytes(s.order_request);
    let p4 = seq![flag_byte(s.reset)];
    let p5 = spec_u16_to_le_bytes(s.tanks.len() as u16);
    let p6 = tanks_wire(s.tanks);
    let w = shipment_wire(s) + tail;
    let r5 = p6 + tail;
    let r4 = p5 + r5;
    let r3 = p4 + r4;
    let r2 = p3 + r3;
    let r1 = p2 + r2;
    assert(w =~= p1 + r1);
    s.ship_id.lemma_wire_parse(r1);
    lemma_split(p1, r1);
    lemma_split(p2, r2);
    assert(r1.take(8) == p2);
    assert(w.skip(24) == r1);
    assert(w.skip(32) =~= r2);
    lemma_split(p3, r3);
    assert(r2.take(8) == p3);
    assert(w.skip(40) =~= r3);
    assert(w.skip(41) =~= r4);
    lemma_split(p5, r5);
    assert(r4.take(2) == p5);
    assert(w.skip(43) =~= r5);
    lemma_tanks_roundtrip(s.tanks, tail);
    assert(shipment_wire(s).len() == 43 + p6.len());
}

/// A decoded tank is well-formed, and took no more bytes than there were.
pub proof fn lemma_tank_parse_wf(s: Seq<u8>)
    ensures
        parse_tank(s) matches Ok((t, n)) ==> tank_wf(t) && n <= s.len(),
{
    if let Ok((id, n1)) = UniqueId::parse(s) {
        UniqueId::lemma_parse_len(s);
        if let Ok((_, n2)) = parse_u8(s.skip(n1 as int)) {
            lemma_host_parse_wf(s.skip((n1 + n2) as int));
        }
    }
}

/// Decoded tanks are as many as asked for, each well-formed, and took no more bytes than
/// there were.
pub proof fn lemma_tanks_parse_wf(s: Seq<u8>, count: nat)
    ensures
        parse_tanks(s, count) matches Ok((ts, n)) ==> ts.len() == count && n <= s.len() && (
        forall|i: int| 0 <= i < ts.len() ==> tank_wf(#[trigger] ts[i])),
    decreases count,
{
    if count > 0 {
        lemma_tank_parse_wf(s);
        if let Ok((t, n)) = parse_tank(s) {
            lemma_tanks_parse_wf(s.skip(n as int), (count - 1) as nat);
            if let Ok((ts, m)) = parse_tanks(s.skip(n as int), (count - 1) as nat) {
                let all = seq![t] + ts;
                assert forall|i: int| 0 <= i < all.len() implies tank_wf(#[trigger] all[i]) by {
                    if i > 0 {
                        assert(all[i] == ts[i - 1]);
                    }
                }
            }
        }
    }
}

/// A decoded shipment is well-formed, so that encoding it loses nothing, and took no more
/// bytes than there were.
pub proof fn lemma_shipment_parse_wf(s: Seq<u8>)
    ensures
        parse_shipment(s) matches Ok((v, n)) ==> shipment_wf(v) && n <= s.len(),
{
    UniqueId::lemma_parse_len(s);
    if let Ok((v, n)) = parse_shipment(s) {
        if let Ok((count, _)) = parse_u16_le(s.skip(41)) {
            lemma_tanks_parse_wf(s.skip(43), count as nat);
        }
    }
}


/// The wire form of two runs of tanks is the wire form of the first followed by that of the second.
pub proof fn lemma_tanks_wire_concat(a: Seq<TankView>, b: Seq<TankView>)
    ensures
        tanks_wire(a + b) == tanks_wire(a) + tanks_wire(b),
    decreases a.len(),
{
    if a.len() == 0 {
        assert(a + b =~= b);
        assert(tanks_wire(a) + tanks_wire(b) =~= tanks_wire(b));
    } else {
        lemma_tanks_wire_concat(a.drop_first(), b);
        assert((a + b).drop_first() =~= a.drop_first() + b);
        assert(tanks_wire(a + b) =~= tanks_wire(a) + tanks_wire(b));
    }
}

/// The outcome of decoding the remaining tanks, put after the tanks already decoded.
pub open spec fn after_decoded(
    done: Seq<TankView>,
    used: nat,
    r: Result<(Seq<TankView>, nat), WireError>,
) -> Result<(Seq<TankView>, nat), WireError> {
    match r {
        Ok((ts, m)) => Ok((done + ts, used + m)),
        Err(e) => Err(e),
    }
}

/// The views of a vector of tanks.
pub open spec fn tank_views(v: Seq<SpringTank>) -> Seq<TankView> {
    v.map_values(|t: SpringTank| t@)
}

impl SpringTank {
    /// Appends the wire form of the tank to `out`. Data of more than `u32::MAX` bytes has its
    /// length truncated, as the format cannot carry it.
    pub fn write(&self, out: &mut Vec<u8>)
        ensures
            final(out)@ == old(out)@ + tank_wire(self@),
    {
        self.id.write(out);
        write_u8(out, if self.ended { 1 } else { 0 });
        self.host.write(out);
        write_u16_le(out, self.port);
        write_u32_le(out, #[verifier::truncate] (self.data.len() as u32));
        write_bytes(out, self.data.as_slice());
        assert(final(out)@ =~= old(out)@ + tank_wire(self@));
    }

    /// Decodes a tank from `buf` at `pos`, with the number of bytes it took.
    pub fn read(buf: &[u8], pos: usize) -> (r: Result<(SpringTank, usize), WireError>)
        requires
            pos <= buf@.len(),
        ensures
            match parse_tank(rest(buf@, pos)) {
                Ok((t, n)) => r matches Ok((v, m)) && v@ == t && m == n,
                Err(e) => r == Err::<(SpringTank, usize), WireError>(e),
            },
    {
        let ghost s = rest(buf@, pos);
        assert(s.len() == buf@.len() - pos);
        proof {
            UniqueId::lemma_parse_len(s);
            lemma_tank_parse_wf(s);
        }
        let id = match UniqueId::read(buf, pos) {
            Ok(v) => v,
            Err(e) => return Err(e),
        };
        let total = buf.len();
        let p1 = pos + 24;
        assert(s.skip(24) =~= rest(buf@, p1));
        let ended = match read_u8(buf, p1) {
            Ok(v) => v,
            Err(e) => return Err(e),
        };
        let p2 = p1 + 1;
        assert(s.skip(25) =~= rest(buf@, p2));
        proof {
            lemma_host_parse_wf(rest(buf@, p2));
        }
        let (host, hn) = match SocksHost::read(buf, p2) {
            Ok(v) => v,
            Err(e) => return Err(e),
        };
        let p3 = p2 + hn;
        assert(s.skip(25 + hn) =~= rest(buf@, p3));
        let port = match read_u16_le(buf, p3) {
            Ok(v) => v,
            Err(e) => return Err(e),
        };
        let p4 = p3 + 2;
        assert(s.skip(27 + hn) =~= rest(buf@, p4));
        let len = match read_u32_le(buf, p4) {
            Ok(v) => v as usize,
            Err(e) => return Err(e),
        };
        let start = p4 + 4;
        if buf.len() - start < len {
            return Err(WireError::Eof);
        }
        let data = vstd::slice::slice_to_vec(vstd::slice::slice_subrange(buf, start, start + len));
        assert(data@ =~= s.subrange((31 + hn) as int, (31 + hn + len) as int));
        Ok((SpringTank { id, ended: ended == 1, host, port, data }, start + len - pos))
    }
}

impl Shipment {
    /// Appends the wire form of the shipment to `out`. More than `u16::MAX` tanks have their
    /// count truncated, as the format cannot carry it.
    pub fn write(&self, out: &mut Vec<u8>)
        ensures
            final(out)@ == old(out)@ + shipment_wire(self@),
    {
        let ghost start = out@;
        self.ship_id.write(out);
        write_u64_le(out, self.order);
        write_u64_le(out, self.order_request);
        write_u8(out, if self.reset { 1 } else { 0 });
        write_u16_le(out, #[verifier::truncate] (self.tanks.len() as u16));
        let ghost before = out@;
        let ghost tv = self@.tanks;
        let n = self.tanks.len();
        assert(tv.take(0) =~= Seq::<TankView>::empty());
        for i in 0..n
            invariant
                n == self.tanks.len(),
                tv == self@.tanks,
                tv.len() == n,
                out@ == before + tanks_wire(tv.take(i as int)),
        {
            proof {
                lemma_tanks_wire_concat(tv.take(i as int), seq![tv[i as int]]);
                assert(tv.take(i as int) + seq![tv[i as int]] =~= tv.take(i + 1));
                reveal_with_fuel(tanks_wire, 2);
                assert(seq![tv[i as int]].drop_first() =~= Seq::<TankView>::empty());
                assert(tanks_wire(seq![tv[i as int]]) =~= tank_wire(tv[i as int]));
            }
            self.tanks[i].write(out);
            assert(out@ =~= before + tanks_wire(tv.take(i + 1)));
        }
        assert(tv.take(n as int) =~= tv);
        assert(final(out)@ =~= start + shipment_wire(self@));
    }

    /// The wire form of the shipment.
    pub fn to_bytes(&self) -> (r: Vec<u8>)
        ensures
            r@ == shipment_wire(self@),
    {
        let mut out = Vec::new();
        self.write(&mut out);
        assert(out@ =~= shipment_wire(self@));
        out
    }

    /// Decodes a shipment from the front of `buf`; bytes after it are ignored.
    pub fn read(buf: &[u8]) -> (r: Result<Shipment, WireError>)
        ensures
            match parse_shipment(buf@) {
                Ok((v, _)) => r matches Ok(x) && x@ == v,
                Err(e) => r == Err::<Shipment, WireError>(e),
            },
    {
        let ghost s = buf@;
        assert(rest(buf@, 0) =~= s);
        proof {
            UniqueId::lemma_parse_len(s);
        }
        let ship_id = match UniqueId::read(buf, 0) {
            Ok(v) => v,
            Err(e) => return Err(e),
        };
        assert(s.skip(24) =~= rest(buf@, 24));
        let order = match read_u64_le(buf, 24) {
            Ok(v) => v,
            Err(e) => return Err(e),
        };
        assert(s.skip(32) =~= rest(buf@, 32));
        let order_request = match read_u64_le(buf, 32) {
            Ok(v) => v,
            Err(e) => return Err(e),
        };
        assert(s.skip(40) =~= rest(buf@, 40));
        let reset = match read_u8(buf, 40) {
            Ok(v) => v,
            Err(e) => return Err(e),
        };
        assert(s.skip(41) =~= rest(buf@, 41));
        let count = match read_u16_le(buf, 41) {
            Ok(v) => v,
            Err(e) => return Err(e),
        };
        assert(s.skip(43) =~= rest(buf@, 43));
        let ghost whole = parse_tanks(rest(buf@, 43), count as nat);
        let mut tanks: Vec<SpringTank> = Vec::new();
        let mut p: usize = 43;
        let mut i: u16 = 0;
        assert(rest(buf@, 43).skip(0) =~= rest(buf@, 43));
        assert(tank_views(tanks@) =~= Seq::<TankView>::empty());
        assert(after_decoded(Seq::empty(), 0, whole) =~= whole) by {
            if let Ok((ts, m)) = whole {
                assert(Seq::<TankView>::empty() + ts =~= ts);
            }
        }
        while i < count
            invariant
                i <= count,
                43 <= p <= buf@.len(),
                whole == parse_tanks(rest(buf@, 43), count as nat),
                match whole {
                    Err(e) => parse_shipment(buf@) == Err::<(ShipmentView, nat), WireError>(e),
                    Ok((ts, m)) => parse_shipment(buf@) == Ok::<(ShipmentView, nat), WireError>(
                        (
                            ShipmentView {
                                ship_id,
                                order,
                                order_request,
                                reset: reset == 1,
                                tanks: ts,
                            },
                            43 + m,
                        ),
                    ),
                },
                whole == after_decoded(
                    tank_views(tanks@),
                    (p - 43) as nat,
                    parse_tanks(rest(buf@, p), (count - i) as nat),
                ),
            decreases count - i,
        {
            let total = buf.len();
            assert(rest(buf@, p).len() == buf@.len() - p);
            proof {
                lemma_tank_parse_wf(rest(buf@, p));
            }
            let (t, n) = match SpringTank::read(buf, p) {
                Ok(v) => v,
                Err(e) => return Err(e),
            };
            let ghost old_views = tank_views(tanks@);
            let ghost tv = t@;
            assert(rest(buf@, p).skip(n as int) =~= rest(buf@, (p + n) as usize));
            tanks.push(t);
            assert(tank_views(tanks@) =~= old_views + seq![tv]);
            proof {
                let inner = parse_tanks(rest(buf@, (p + n) as usize), (count - i - 1) as nat);
                if let Ok((ts, m)) = inner {
                    assert(old_views + (seq![tv] + ts) =~= (old_views + seq![tv]) + ts);
                }
            }
            p = p + n;
            i = i + 1;
        }
        assert(after_decoded(tank_views(tanks@), (p - 43) as nat, parse_tanks(rest(buf@, p), 0))
            =~= Ok::<(Seq<TankView>, nat), WireError>((tank_views(tanks@), (p - 43) as nat))) by {
            assert(tank_views(tanks@) + Seq::<TankView>::empty() =~= tank_views(tanks@));
        }
        Ok(Shipment { ship_id, order, order_request, reset: reset == 1, tanks })
    }
}

} // verus!
