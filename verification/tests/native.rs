//! The native DEX front-end and the analyses over it, on small programs assembled here.

use dexlock::dex;
use dexlock::dex::ctx::persist::ReadError;
use dexlock::dex::ctx::Index;
use dexlock::dex::model::{Dex, InvokeKind, Lock, Mode, Op, Root, MAX_PATH};
use dexlock::dex::native::reader::DexError;
use dexlock::lockctx::store::{load, save, LoadError};
use dexlock::dump::lock_points;
use dexlock::lockctx::{query, query_json, short, Query};
use dexlock::resolver::{build_index, Options, Resolver};
use std::collections::HashMap;

// --- a small DEX assembler --------------------------------------------------

#[derive(Default)]
struct Image {
    strings: Vec<String>,
    types: Vec<u32>,
    protos: Vec<(u32, Vec<u16>)>,
    fields: Vec<(u16, u16, u32)>,
    methods: Vec<(u16, u16, u32)>,
    classes: Vec<ClassDef>,
}

struct ClassDef {
    ty: u16,
    super_ty: Option<u16>,
    interfaces: Vec<u16>,
    source: Option<u32>,
    fields: Vec<(u16, u32)>,
    direct: Vec<(u16, u32, Option<Code>)>,
    virtuals: Vec<(u16, u32, Option<Code>)>,
}

#[derive(Default)]
struct Code {
    registers: u16,
    ins: u16,
    units: Vec<u16>,
    lines: Vec<(u32, u32)>,
    tries: Vec<(u32, u16, u32)>,
    labels: HashMap<&'static str, usize>,
    jumps: Vec<(usize, &'static str)>,
    switches: Vec<(usize, Vec<&'static str>)>,
}

impl Code {
    fn new(registers: u16, ins: u16) -> Code {
        Code { registers, ins, ..Code::default() }
    }

    /// The line of what comes next.
    fn line(mut self, line: u32) -> Code {
        self.lines.push((self.units.len() as u32, line));
        self
    }

    fn op(mut self, units: &[u16]) -> Code {
        self.units.extend_from_slice(units);
        self
    }

    fn label(mut self, name: &'static str) -> Code {
        self.labels.insert(name, self.units.len());
        self
    }

    fn goto(mut self, name: &'static str) -> Code {
        self.jumps.push((self.units.len(), name));
        self.op(&[0x29, 0])
    }

    fn if_eqz(mut self, r: u16, name: &'static str) -> Code {
        self.jumps.push((self.units.len(), name));
        self.op(&[0x38 | r << 8, 0])
    }

    fn if_nez(mut self, r: u16, name: &'static str) -> Code {
        self.jumps.push((self.units.len(), name));
        self.op(&[0x39 | r << 8, 0])
    }

    fn packed_switch(mut self, r: u16, cases: &[&'static str]) -> Code {
        self.switches.push((self.units.len(), cases.to_vec()));
        self.op(&[0x2b | r << 8, 0, 0])
    }

    fn enter(self, r: u16) -> Code {
        self.op(&[0x1d | r << 8])
    }

    fn exit(self, r: u16) -> Code {
        self.op(&[0x1e | r << 8])
    }

    fn ret(self) -> Code {
        self.op(&[0x0e])
    }

    fn throw(self, r: u16) -> Code {
        self.op(&[0x27 | r << 8])
    }

    fn iget(self, dst: u16, base: u16, field: u16) -> Code {
        self.op(&[0x54 | dst << 8 | base << 12, field])
    }

    fn iput(self, src: u16, base: u16, field: u16) -> Code {
        self.op(&[0x5b | src << 8 | base << 12, field])
    }

    fn sget(self, dst: u16, field: u16) -> Code {
        self.op(&[0x62 | dst << 8, field])
    }

    fn new_instance(self, dst: u16, ty: u16) -> Code {
        self.op(&[0x22 | dst << 8, ty])
    }

    fn const_class(self, dst: u16, ty: u16) -> Code {
        self.op(&[0x1c | dst << 8, ty])
    }

    fn result(self, dst: u16) -> Code {
        self.op(&[0x0c | dst << 8])
    }

    fn ret_object(self, r: u16) -> Code {
        self.op(&[0x11 | r << 8])
    }

    fn invoke(self, kind: InvokeKind, method: u16, args: &[u16]) -> Code {
        let op: u16 = match kind {
            InvokeKind::Virtual => 0x6e,
            InvokeKind::Super => 0x6f,
            InvokeKind::Direct => 0x70,
            InvokeKind::Static => 0x71,
            InvokeKind::Interface => 0x72,
        };
        let mut regs: u16 = 0;
        for (i, a) in args.iter().take(4).enumerate() {
            regs |= a << (4 * i);
        }
        self.op(&[op | (args.len() as u16) << 12, method, regs])
    }

    fn call(self, method: u16, args: &[u16]) -> Code {
        self.invoke(InvokeKind::Virtual, method, args)
    }

    /// What stands between the labels is caught at the third.
    fn catch_all(mut self, from: &'static str, to: &'static str, handler: &'static str) -> Code {
        let start = self.labels[from] as u32;
        let end = self.labels[to] as u32;
        self.tries.push((start, (end - start) as u16, self.labels[handler] as u32));
        self
    }

    fn units(&self) -> Vec<u16> {
        let mut units = self.units.clone();
        for (at, name) in &self.jumps {
            units[at + 1] = (self.labels[name] as i32 - *at as i32) as i16 as u16;
        }
        for (at, cases) in &self.switches {
            let payload = units.len() as i32 - *at as i32;
            units[at + 1] = payload as u16;
            units[at + 2] = (payload >> 16) as u16;
            units.extend([0x0100, cases.len() as u16, 0, 0]);
            for c in cases {
                let to = self.labels[c] as i32 - *at as i32;
                units.extend([to as u16, (to >> 16) as u16]);
            }
        }
        units
    }
}

fn uleb(out: &mut Vec<u8>, mut v: u32) {
    while v >= 0x80 {
        out.push((v & 0x7f) as u8 | 0x80);
        v >>= 7;
    }
    out.push(v as u8);
}

fn sleb(out: &mut Vec<u8>, mut v: i32) {
    loop {
        let b = (v & 0x7f) as u8;
        v >>= 7;
        if (v == 0 && b & 0x40 == 0) || (v == -1 && b & 0x40 != 0) {
            out.push(b);
            return;
        }
        out.push(b | 0x80);
    }
}

fn put32(out: &mut Vec<u8>, v: u32) {
    out.extend_from_slice(&v.to_le_bytes());
}

fn put16(out: &mut Vec<u8>, v: u16) {
    out.extend_from_slice(&v.to_le_bytes());
}

impl Image {
    fn string(&mut self, s: &str) -> u32 {
        match self.strings.iter().position(|x| x == s) {
            Some(i) => i as u32,
            None => {
                self.strings.push(s.to_string());
                self.strings.len() as u32 - 1
            }
        }
    }

    fn ty(&mut self, desc: &str) -> u16 {
        let s = self.string(desc);
        match self.types.iter().position(|x| *x == s) {
            Some(i) => i as u16,
            None => {
                self.types.push(s);
                self.types.len() as u16 - 1
            }
        }
    }

    /// A type by its dotted name.
    fn class_ty(&mut self, dotted: &str) -> u16 {
        self.ty(&format!("L{};", dotted.replace('.', "/")))
    }

    fn proto(&mut self, sig: &str) -> u16 {
        let (params, ret) = sig[1..].split_once(')').unwrap();
        let mut list = Vec::new();
        let mut rest = params;
        while !rest.is_empty() {
            let n = if rest.starts_with('L') { rest.find(';').unwrap() + 1 } else { 1 };
            list.push(self.ty(&rest[..n]));
            rest = &rest[n..];
        }
        let ret = self.ty(ret) as u32;
        let p = (ret, list);
        match self.protos.iter().position(|x| *x == p) {
            Some(i) => i as u16,
            None => {
                self.protos.push(p);
                self.protos.len() as u16 - 1
            }
        }
    }

    fn field(&mut self, class: &str, name: &str, ty: &str) -> u16 {
        let f = (self.class_ty(class), self.class_ty(ty), self.string(name));
        match self.fields.iter().position(|x| *x == f) {
            Some(i) => i as u16,
            None => {
                self.fields.push(f);
                self.fields.len() as u16 - 1
            }
        }
    }

    fn method(&mut self, class: &str, name: &str, sig: &str) -> u16 {
        let m = (self.class_ty(class), self.proto(sig), self.string(name));
        match self.methods.iter().position(|x| *x == m) {
            Some(i) => i as u16,
            None => {
                self.methods.push(m);
                self.methods.len() as u16 - 1
            }
        }
    }

    fn class(&mut self, name: &str, sup: &str, interfaces: &[&str], source: Option<&str>) {
        let ty = self.class_ty(name);
        let super_ty = Some(self.class_ty(sup));
        let interfaces = interfaces.iter().map(|i| self.class_ty(i)).collect();
        let source = source.map(|s| self.string(s));
        let (fields, direct, virtuals) = (Vec::new(), Vec::new(), Vec::new());
        self.classes.push(ClassDef { ty, super_ty, interfaces, source, fields, direct, virtuals });
    }

    /// Define a method of the last class; private, static and constructors are direct.
    fn define(&mut self, class: &str, name: &str, sig: &str, access: u32, code: Option<Code>) {
        let id = self.method(class, name, sig);
        let c = self.classes.last_mut().unwrap();
        if access & 0xa != 0 || name == "<init>" {
            c.direct.push((id, access, code));
        } else {
            c.virtuals.push((id, access, code));
        }
    }

    fn bytes(mut self) -> Vec<u8> {
        let header = 0x70u32;
        let string_off = header;
        let type_off = string_off + 4 * self.strings.len() as u32;
        let proto_off = type_off + 4 * self.types.len() as u32;
        let field_off = proto_off + 12 * self.protos.len() as u32;
        let method_off = field_off + 8 * self.fields.len() as u32;
        let class_off = method_off + 8 * self.methods.len() as u32;
        let data_off = class_off + 32 * self.classes.len() as u32;

        let mut data: Vec<u8> = Vec::new();
        let here = |data: &Vec<u8>| data_off + data.len() as u32;
        let mut ids: Vec<u8> = Vec::new();
        for s in &self.strings {
            put32(&mut ids, here(&data));
            uleb(&mut data, s.chars().count() as u32);
            data.extend_from_slice(s.as_bytes());
            data.push(0);
        }
        for t in &self.types {
            put32(&mut ids, *t);
        }
        for (ret, params) in &self.protos {
            put32(&mut ids, 0);
            put32(&mut ids, *ret);
            if params.is_empty() {
                put32(&mut ids, 0);
            } else {
                put32(&mut ids, here(&data));
                put32(&mut data, params.len() as u32);
                for p in params {
                    put16(&mut data, *p);
                }
            }
        }
        for (class, ty, name) in &self.fields {
            put16(&mut ids, *class);
            put16(&mut ids, *ty);
            put32(&mut ids, *name);
        }
        for (class, proto, name) in &self.methods {
            put16(&mut ids, *class);
            put16(&mut ids, *proto);
            put32(&mut ids, *name);
        }
        for c in &mut self.classes {
            c.direct.sort_by_key(|m| m.0);
            c.virtuals.sort_by_key(|m| m.0);
            c.fields.sort_by_key(|f| f.0);
            let mut body: Vec<u8> = Vec::new();
            uleb(&mut body, 0);
            uleb(&mut body, c.fields.len() as u32);
            uleb(&mut body, c.direct.len() as u32);
            uleb(&mut body, c.virtuals.len() as u32);
            let mut last = 0;
            for (id, access) in &c.fields {
                uleb(&mut body, *id as u32 - last);
                last = *id as u32;
                uleb(&mut body, *access);
            }
            for group in [&c.direct, &c.virtuals] {
                let mut last = 0;
                for (id, access, code) in group {
                    uleb(&mut body, *id as u32 - last);
                    last = *id as u32;
                    uleb(&mut body, *access);
                    match code {
                        None => uleb(&mut body, 0),
                        Some(code) => {
                            let debug = here(&data);
                            put_debug(&mut data, &code.lines);
                            uleb(&mut body, here(&data));
                            put_code(&mut data, code, debug);
                        }
                    }
                }
            }
            let interfaces = if c.interfaces.is_empty() {
                0
            } else {
                let at = here(&data);
                put32(&mut data, c.interfaces.len() as u32);
                for i in &c.interfaces {
                    put16(&mut data, *i);
                }
                at
            };
            put32(&mut ids, c.ty as u32);
            put32(&mut ids, 0);
            put32(&mut ids, c.super_ty.map_or(0xffff_ffff, |t| t as u32));
            put32(&mut ids, interfaces);
            put32(&mut ids, c.source.unwrap_or(0xffff_ffff));
            put32(&mut ids, 0);
            put32(&mut ids, here(&data));
            put32(&mut ids, 0);
            data.extend_from_slice(&body);
        }

        let mut out = b"dex\n035\0".to_vec();
        out.resize(0x20, 0);
        put32(&mut out, data_off + data.len() as u32);
        out.resize(0x38, 0);
        for (n, off) in [
            (self.strings.len(), string_off),
            (self.types.len(), type_off),
            (self.protos.len(), proto_off),
            (self.fields.len(), field_off),
            (self.methods.len(), method_off),
            (self.classes.len(), class_off),
        ] {
            put32(&mut out, n as u32);
            put32(&mut out, off);
        }
        out.resize(header as usize, 0);
        out.extend_from_slice(&ids);
        out.extend_from_slice(&data);
        out
    }

    fn parse(self) -> Dex {
        dex::parse_dex_blob(&self.bytes()).expect("parse fixture")
    }
}

fn put_debug(data: &mut Vec<u8>, lines: &[(u32, u32)]) {
    let mut address = 0;
    let mut line = 1;
    uleb(data, line as u32);
    uleb(data, 0);
    for (a, l) in lines {
        data.push(0x01);
        uleb(data, a - address);
        data.push(0x02);
        sleb(data, *l as i32 - line);
        data.push(0x0e);
        address = *a;
        line = *l as i32;
    }
    data.push(0x00);
}

fn put_code(data: &mut Vec<u8>, code: &Code, debug: u32) {
    let units = code.units();
    put16(data, code.registers);
    put16(data, code.ins);
    put16(data, 0);
    put16(data, code.tries.len() as u16);
    put32(data, debug);
    put32(data, units.len() as u32);
    for u in &units {
        put16(data, *u);
    }
    if code.tries.is_empty() {
        return;
    }
    if units.len() % 2 == 1 {
        put16(data, 0);
    }
    let mut handlers: Vec<u8> = vec![code.tries.len() as u8];
    for (start, count, handler) in &code.tries {
        put32(data, *start);
        put16(data, *count);
        put16(data, handlers.len() as u16);
        sleb(&mut handlers, 0);
        uleb(&mut handlers, *handler);
    }
    data.extend_from_slice(&handlers);
}

// --- programs ---------------------------------------------------------------

const PUBLIC: u32 = 1;
const PRIVATE: u32 = 2;
const STATIC: u32 = 8;
const OBJECT: &str = "java.lang.Object";

/// Fields `mLock` and `sLock`, and each form of `synchronized`.
fn locks() -> Image {
    let mut d = Image::default();
    let m_lock = d.field("t.Locks", "mLock", OBJECT);
    let s_lock = d.field("t.Locks", "sLock", OBJECT);
    let this = d.class_ty("t.Locks");
    d.class("t.Locks", OBJECT, &[], Some("Locks.java"));
    let a = Code::new(2, 1).line(5).iget(0, 1, m_lock).enter(0).exit(0).ret();
    d.define("t.Locks", "a", "()V", PUBLIC, Some(a));
    let b = Code::new(2, 1).line(6).sget(0, s_lock).enter(0).exit(0).ret();
    d.define("t.Locks", "b", "()V", PUBLIC, Some(b));
    let c = Code::new(1, 1).enter(0).line(7).exit(0).ret();
    d.define("t.Locks", "c", "()V", PUBLIC, Some(c));
    let e = Code::new(1, 0).const_class(0, this).enter(0).line(8).exit(0).ret();
    d.define("t.Locks", "d", "()V", PUBLIC | STATIC, Some(e));
    d
}

/// Binder calls with and without a lock held.
fn binder() -> Image {
    let mut d = Image::default();
    let holder = "t.Binder$Holder";
    d.class("t.Binder$IFoo", OBJECT, &["android.os.IInterface"], Some("Binder.java"));
    d.define("t.Binder$IFoo", "doRemote", "()V", PUBLIC, None);
    let remote = d.method("t.Binder$IFoo", "doRemote", "()V");
    let m_lock = d.field(holder, "mLock", OBJECT);
    let m_foo = d.field(holder, "mFoo", "t.Binder$IFoo");
    let local = d.method(holder, "local", "()V");
    let helper = d.method(holder, "helperLocked", "()V");
    let interface = InvokeKind::Interface;
    d.class(holder, OBJECT, &[], Some("Binder.java"));
    let c = Code::new(2, 1).line(10).iget(0, 1, m_foo).invoke(interface, remote, &[0]).ret();
    d.define(holder, "noLock", "()V", PUBLIC, Some(c));
    let c = Code::new(3, 1)
        .line(12)
        .iget(0, 2, m_lock)
        .enter(0)
        .line(13)
        .iget(1, 2, m_foo)
        .invoke(interface, remote, &[1])
        .exit(0)
        .ret();
    d.define(holder, "underLock", "()V", PUBLIC, Some(c));
    let c = Code::new(2, 1)
        .enter(1)
        .line(16)
        .iget(0, 1, m_foo)
        .invoke(interface, remote, &[0])
        .exit(1)
        .ret();
    d.define(holder, "underSyncMethod", "()V", PUBLIC, Some(c));
    let c = Code::new(2, 1).line(20).iget(0, 1, m_foo).invoke(interface, remote, &[0]).ret();
    d.define(holder, "helperLocked", "()V", PRIVATE, Some(c));
    let c = Code::new(2, 1)
        .line(23)
        .iget(0, 1, m_lock)
        .enter(0)
        .line(24)
        .invoke(InvokeKind::Direct, helper, &[1])
        .exit(0)
        .ret();
    d.define(holder, "callsHelper", "()V", PUBLIC, Some(c));
    let c = Code::new(2, 1)
        .line(27)
        .iget(0, 1, m_lock)
        .enter(0)
        .line(28)
        .call(local, &[1])
        .exit(0)
        .ret();
    d.define(holder, "plainUnderLock", "()V", PUBLIC, Some(c));
    d.define(holder, "local", "()V", PUBLIC, Some(Code::new(1, 1).line(31).ret()));
    d
}

/// `top -> mid -> leaf` under `mA`, and `mA` and `mB` taken in both orders.
fn ctx() -> Image {
    let mut d = Image::default();
    let class = "t.Ctx";
    let m_a = d.field(class, "mA", OBJECT);
    let m_b = d.field(class, "mB", OBJECT);
    let mid = d.method(class, "mid", "()V");
    let leaf = d.method(class, "leaf", "()V");
    d.class(class, OBJECT, &[], Some("Ctx.java"));
    let c = Code::new(2, 1).line(12).iget(0, 1, m_a).enter(0).call(mid, &[1]).exit(0).ret();
    d.define(class, "top", "()V", PUBLIC, Some(c));
    d.define(class, "mid", "()V", PUBLIC, Some(Code::new(1, 1).line(13).call(leaf, &[0]).ret()));
    d.define(class, "leaf", "()V", PUBLIC, Some(Code::new(1, 1).line(14).ret()));
    for (name, first, second, line) in [("nested", m_a, m_b, 15), ("other", m_b, m_a, 16)] {
        let c = Code::new(3, 1)
            .line(line)
            .iget(0, 2, first)
            .enter(0)
            .iget(1, 2, second)
            .enter(1)
            .exit(1)
            .exit(0)
            .ret();
        d.define(class, name, "()V", PUBLIC, Some(c));
    }
    d
}

const LOCK: &str = "java.util.concurrent.locks.ReentrantLock";
const RW_LOCK: &str = "java.util.concurrent.locks.ReentrantReadWriteLock";
const READ_LOCK: &str = "java.util.concurrent.locks.Lock";

/// Locks over early returns, handlers, switches, loops, `tryLock`, views, helpers and
/// callbacks. Register 5 is `this`.
fn cfg() -> Image {
    let mut d = Image::default();
    let class = "t.Cfg";
    let m_a = d.field(class, "mA", OBJECT);
    let m_l = d.field(class, "mL", LOCK);
    let m_rw = d.field(class, "mRw", RW_LOCK);
    let names = [
        "after", "outside", "inCatch", "inFinally", "s1", "s2", "s3", "body", "tail", "inTry",
        "notTaken", "post", "inTry2", "inRead", "afterRead", "inHelperLock", "afterHelper", "inLambda",
        "inLambda2", "inPosted", "inExternal", "risky",
    ];
    let ids: HashMap<&str, u16> = names.iter().map(|n| (*n, d.method(class, n, "()V"))).collect();
    let try_lock = d.method(LOCK, "tryLock", "()Z");
    let lock = d.method(LOCK, "lock", "()V");
    let unlock = d.method(LOCK, "unlock", "()V");
    let read_view = d.method(RW_LOCK, "readLock", "()Ljava/util/concurrent/locks/Lock;");
    let view_lock = d.method(READ_LOCK, "lock", "()V");
    let view_unlock = d.method(READ_LOCK, "unlock", "()V");
    let acquire = d.method(class, "acquireL", "()V");
    let release = d.method(class, "releaseL", "()V");
    let act = "(Lt/Act;)V";
    let each = d.method(class, "each", act);
    let forward = d.method(class, "forward", act);
    let keep = d.method(class, "keep", act);
    let external = d.method("java.util.List", "forEach", act);
    let go = d.method("t.Act", "go", "()V");
    let m_kept = d.field(class, "mKept", "t.Act");
    let lambdas: Vec<u16> = (0..4).map(|i| d.class_ty(&format!("t.Cfg$L{i}"))).collect();
    let interface = InvokeKind::Interface;

    d.class("t.Act", OBJECT, &[], Some("Cfg.java"));
    d.define("t.Act", "go", "()V", PUBLIC, None);
    d.class(class, OBJECT, &[], Some("Cfg.java"));
    for n in names {
        d.define(class, n, "()V", PUBLIC, Some(Code::new(1, 1).line(1).ret()));
    }
    // synchronized (mA) { if (x) { return; } after(); } outside();
    let c = Code::new(6, 1)
        .line(10)
        .iget(0, 5, m_a)
        .enter(0)
        .if_eqz(1, "on")
        .exit(0)
        .ret()
        .label("on")
        .call(ids["after"], &[5])
        .exit(0)
        .call(ids["outside"], &[5])
        .ret();
    d.define(class, "early", "()V", PUBLIC, Some(c));
    // synchronized (mA) { try { risky(); } catch { inCatch(); } finally { inFinally(); } }
    let c = Code::new(6, 1)
        .line(20)
        .iget(0, 5, m_a)
        .enter(0)
        .label("try")
        .call(ids["risky"], &[5])
        .label("end")
        .goto("finally")
        .label("catch")
        .call(ids["inCatch"], &[5])
        .label("finally")
        .call(ids["inFinally"], &[5])
        .exit(0)
        .ret()
        .catch_all("try", "end", "catch");
    d.define(class, "handler", "()V", PUBLIC, Some(c));
    // synchronized (mA) { switch (x) { ... } }
    let c = Code::new(6, 1)
        .line(30)
        .iget(0, 5, m_a)
        .enter(0)
        .packed_switch(1, &["one", "two"])
        .call(ids["s3"], &[5])
        .goto("out")
        .label("one")
        .call(ids["s1"], &[5])
        .goto("out")
        .label("two")
        .call(ids["s2"], &[5])
        .label("out")
        .exit(0)
        .ret();
    d.define(class, "switches", "()V", PUBLIC, Some(c));
    // while (x) { synchronized (mA) { body(); } } tail();
    let c = Code::new(6, 1)
        .line(40)
        .label("loop")
        .if_eqz(1, "done")
        .iget(0, 5, m_a)
        .enter(0)
        .call(ids["body"], &[5])
        .exit(0)
        .goto("loop")
        .label("done")
        .call(ids["tail"], &[5])
        .ret();
    d.define(class, "loops", "()V", PUBLIC, Some(c));
    // if (mL.tryLock()) { inTry(); mL.unlock(); } else { notTaken(); } post();
    let c = Code::new(6, 1)
        .line(50)
        .iget(0, 5, m_l)
        .call(try_lock, &[0])
        .op(&[0x0a | 1 << 8])
        .if_eqz(1, "else")
        .call(ids["inTry"], &[5])
        .call(unlock, &[0])
        .goto("join")
        .label("else")
        .call(ids["notTaken"], &[5])
        .label("join")
        .call(ids["post"], &[5])
        .ret();
    d.define(class, "tries", "()V", PUBLIC, Some(c));
    // if (!mL.tryLock()) { return; } inTry2(); mL.unlock();
    let c = Code::new(6, 1)
        .line(55)
        .iget(0, 5, m_l)
        .call(try_lock, &[0])
        .op(&[0x0a | 1 << 8])
        .if_nez(1, "taken")
        .ret()
        .label("taken")
        .call(ids["inTry2"], &[5])
        .call(unlock, &[0])
        .ret();
    d.define(class, "triesNot", "()V", PUBLIC, Some(c));
    // mRw.readLock().lock(); inRead(); mRw.readLock().unlock(); afterRead();
    let c = Code::new(6, 1)
        .line(60)
        .iget(0, 5, m_rw)
        .call(read_view, &[0])
        .result(1)
        .invoke(interface, view_lock, &[1])
        .call(ids["inRead"], &[5])
        .invoke(interface, view_unlock, &[1])
        .call(ids["afterRead"], &[5])
        .ret();
    d.define(class, "reads", "()V", PUBLIC, Some(c));
    // acquireL(); inHelperLock(); releaseL(); afterHelper();
    d.define(class, "acquireL", "()V", PUBLIC, Some(Code::new(6, 1).line(70).iget(0, 5, m_l).call(lock, &[0]).ret()));
    d.define(class, "releaseL", "()V", PUBLIC, Some(Code::new(6, 1).line(71).iget(0, 5, m_l).call(unlock, &[0]).ret()));
    let c = Code::new(6, 1)
        .line(72)
        .call(acquire, &[5])
        .call(ids["inHelperLock"], &[5])
        .call(release, &[5])
        .call(ids["afterHelper"], &[5])
        .ret();
    d.define(class, "helped", "()V", PUBLIC, Some(c));
    // each(a) { a.go(); }  forward(a) { each(a); }  keep(a) { mKept = a; }
    d.define(class, "each", act, PUBLIC, Some(Code::new(2, 2).line(80).invoke(interface, go, &[1]).ret()));
    d.define(class, "forward", act, PUBLIC, Some(Code::new(2, 2).line(81).call(each, &[0, 1]).ret()));
    d.define(class, "keep", act, PUBLIC, Some(Code::new(2, 2).line(82).iput(1, 0, m_kept).ret()));
    // synchronized (mA) { callee(() -> ...); }
    for (i, callee) in [each, forward, keep, external].into_iter().enumerate() {
        let kind = if callee == external { interface } else { InvokeKind::Virtual };
        let c = Code::new(6, 1)
            .line(90 + i as u32)
            .iget(0, 5, m_a)
            .enter(0)
            .new_instance(1, lambdas[i])
            .invoke(kind, callee, &[5, 1])
            .exit(0)
            .ret();
        d.define(class, ["gives", "forwards", "posts", "exports"][i], "()V", PUBLIC, Some(c));
    }
    for (i, body) in ["inLambda", "inLambda2", "inPosted", "inExternal"].into_iter().enumerate() {
        let name = format!("t.Cfg$L{i}");
        let target = d.field(&name, "mTarget", class);
        d.class(&name, OBJECT, &["t.Act"], Some("Cfg.java"));
        let c = Code::new(2, 1).line(100).iget(0, 1, target).call(ids[body], &[0]).ret();
        d.define(&name, "go", "()V", PUBLIC, Some(c));
    }
    d
}

fn triples(d: &Dex) -> Vec<(String, Option<u32>, String)> {
    let mut v: Vec<_> =
        dex::acquisitions(d).into_iter().map(|a| (a.method, a.line, a.lock)).collect();
    v.sort();
    v
}

// --- decoding ---------------------------------------------------------------

#[test]
fn widths_spot_check() {
    assert_eq!(dex::native::opcode_width(0x1d), 1); // monitor-enter (11x)
    assert_eq!(dex::native::opcode_width(0x52), 2); // iget (22c)
    assert_eq!(dex::native::opcode_width(0x60), 2); // sget (21c)
    assert_eq!(dex::native::opcode_width(0x6e), 3); // invoke-virtual (35c)
    assert_eq!(dex::native::opcode_width(0x74), 3); // invoke-virtual/range (3rc)
    assert_eq!(dex::native::opcode_width(0x18), 5); // const-wide (51l)
    assert_eq!(dex::native::opcode_width(0x00), 1); // nop
}

#[test]
fn insn_width_payloads() {
    // packed-switch-payload: ident 0x0100, size 3 -> 3*2 + 4 = 10 units
    assert_eq!(dex::native::insn_width(&[0x0100, 3], 0), Some(10));
    // sparse-switch-payload: ident 0x0200, size 2 -> 2*4 + 2 = 10 units
    assert_eq!(dex::native::insn_width(&[0x0200, 2], 0), Some(10));
    // fill-array-data-payload: ident 0x0300, ew 1, count 5 -> ceil(5/2) + 4 = 7
    assert_eq!(dex::native::insn_width(&[0x0300, 1, 5, 0], 0), Some(7));
    assert_eq!(dex::native::insn_width(&[0x0000], 0), Some(1)); // plain nop
    assert_eq!(dex::native::insn_width(&[0x001d], 0), Some(1)); // monitor-enter v0
}

#[test]
fn version_parse() {
    assert_eq!(dex::native::dex_version(b"dex\n041\0"), 41);
    assert_eq!(dex::native::dex_version(b"dex\n035\0"), 35);
}

#[test]
fn other_bytes_are_no_dex() {
    assert_eq!(dex::parse_dex_blob(b"PK").err(), Some(DexError::NotDex));
    assert_eq!(DexError::NotDex.message(), "not a dex file (bad magic)");
    let mut cut = locks().bytes();
    cut.truncate(0x74);
    assert!(dex::parse_dex_blob(&cut).is_err());
}

#[test]
fn decodes_an_image() {
    let d = locks().parse();
    assert_eq!(d.classes.len(), 1);
    let c = &d.classes[0];
    assert_eq!(c.descriptor, "t.Locks");
    assert_eq!(c.super_class.as_deref(), Some(OBJECT));
    let a = c.methods.iter().find(|m| m.name == "a").unwrap();
    assert_eq!((a.class.as_str(), a.sig.as_str()), ("t.Locks", "()V"));
    assert_eq!((a.registers, a.ins), (2, 1));
    assert_eq!(a.positions, vec![(0, 5)]);
    assert_eq!(a.insns.len(), 4);
    assert!(matches!(&a.insns[0].op, Op::Iget { dst: 0, base: 1, field, .. } if field == "mLock"));
    assert!(matches!(a.insns[1].op, Op::MonitorEnter(0)));
    assert_eq!(a.insns[1].offset, 2);
}

#[test]
fn decodes_branches_and_handlers() {
    let mut d = Image::default();
    d.class("t.B", OBJECT, &[], None);
    let c = Code::new(2, 1)
        .label("from")
        .if_eqz(0, "out")
        .goto("from")
        .label("out")
        .ret()
        .label("handler")
        .throw(0)
        .catch_all("from", "out", "handler");
    d.define("t.B", "m", "()V", PUBLIC, Some(c));
    let d = d.parse();
    let m = &d.classes[0].methods[0];
    assert!(matches!(m.insns[0].op, Op::BranchZero { reg: 0, target: 4 }));
    assert!(matches!(m.insns[1].op, Op::Goto(0)));
    assert!(matches!(m.insns[3].op, Op::Throw));
    assert_eq!(m.catches, vec![(0, 4, 5)]);
    assert_eq!(m.source_file, None);
}

#[test]
fn reads_final_and_volatile_fields() {
    let mut d = Image::default();
    let plain = d.field("t.F", "mPlain", OBJECT);
    let fixed = d.field("t.F", "mFixed", OBJECT);
    let seen = d.field("t.F", "mSeen", OBJECT);
    d.class("t.F", OBJECT, &[], None);
    d.classes[0].fields = vec![(plain, 1), (fixed, 0x11), (seen, 0x42)];
    let d = d.parse();
    assert!(d.final_or_volatile_fields.contains("t.F.mFixed"));
    assert!(d.final_or_volatile_fields.contains("t.F.mSeen"));
    assert!(!d.final_or_volatile_fields.contains("t.F.mPlain"));
}

// --- resolution -------------------------------------------------------------

#[test]
fn fixture_locks_resolve_natively() {
    let d = locks().parse();

    // Every method's source file resolves to Locks.java (regression for the
    // source_file column that a monitor-contention record joins on).
    for c in &d.classes {
        for m in &c.methods {
            assert_eq!(m.source_file.as_deref(), Some("Locks.java"), "{}", m.key());
        }
    }

    // The four synchronized forms each resolve to their canonical lock:
    //   a() synchronized(mLock)   -> instance field
    //   b() synchronized(sLock)   -> static field
    //   c() synchronized method   -> this (the class instance monitor)
    //   d() static synchronized   -> the class object
    assert_eq!(
        triples(&d),
        vec![
            ("t.Locks.a:()V".to_string(), Some(5), "t.Locks.mLock".to_string()),
            ("t.Locks.b:()V".to_string(), Some(6), "t.Locks.sLock".to_string()),
            ("t.Locks.c:()V".to_string(), None, "t.Locks".to_string()),
            ("t.Locks.d:()V".to_string(), None, "t.Locks.class".to_string()),
        ]
    );
}

/// A lock that is handed in through a constructor is the field that owns it.
#[test]
fn injected_lock_resolves_to_its_owner() {
    let mut d = Image::default();
    let owner = d.field("t.Owner", "mProcLock", OBJECT);
    let taken = d.field("t.User", "mLock", OBJECT);
    let user = d.class_ty("t.User");
    let init = d.method("t.User", "<init>", "(Ljava/lang/Object;)V");
    d.class("t.Owner", OBJECT, &[], Some("Owner.java"));
    let c = Code::new(3, 1)
        .line(3)
        .new_instance(0, user)
        .iget(1, 2, owner)
        .invoke(InvokeKind::Direct, init, &[0, 1])
        .ret();
    d.define("t.Owner", "make", "()V", PUBLIC, Some(c));
    d.class("t.User", OBJECT, &[], Some("User.java"));
    let c = Code::new(2, 2).line(5).iput(1, 0, taken).ret();
    d.define("t.User", "<init>", "(Ljava/lang/Object;)V", PUBLIC, Some(c));
    let c = Code::new(2, 1).line(8).iget(0, 1, taken).enter(0).exit(0).ret();
    d.define("t.User", "use", "()V", PUBLIC, Some(c));
    assert_eq!(
        triples(&d.parse()),
        vec![("t.User.use:()V".to_string(), Some(8), "t.Owner.mProcLock".to_string())]
    );
}

/// A constructor that is handed different locks names neither of them.
#[test]
fn conflicting_injection_is_left_alone() {
    let mut d = Image::default();
    let one = d.field("t.Owner", "mOne", OBJECT);
    let two = d.field("t.Owner", "mTwo", OBJECT);
    let taken = d.field("t.User", "mLock", OBJECT);
    let user = d.class_ty("t.User");
    let init = d.method("t.User", "<init>", "(Ljava/lang/Object;)V");
    d.class("t.Owner", OBJECT, &[], Some("Owner.java"));
    for (name, lock) in [("makeOne", one), ("makeTwo", two)] {
        let c = Code::new(3, 1)
            .line(3)
            .new_instance(0, user)
            .iget(1, 2, lock)
            .invoke(InvokeKind::Direct, init, &[0, 1])
            .ret();
        d.define("t.Owner", name, "()V", PUBLIC, Some(c));
    }
    d.class("t.User", OBJECT, &[], Some("User.java"));
    let c = Code::new(2, 2).line(5).iput(1, 0, taken).ret();
    d.define("t.User", "<init>", "(Ljava/lang/Object;)V", PUBLIC, Some(c));
    let c = Code::new(2, 1).line(8).iget(0, 1, taken).enter(0).exit(0).ret();
    d.define("t.User", "use", "()V", PUBLIC, Some(c));
    assert_eq!(
        triples(&d.parse()),
        vec![("t.User.use:()V".to_string(), Some(8), "t.User.mLock".to_string())]
    );
}

/// A lock that a trivial getter hands out is the field behind it.
#[test]
fn getter_resolves_to_its_field() {
    let mut d = Image::default();
    let field = d.field("t.G", "mLock", OBJECT);
    let get = d.method("t.G", "getLock", "()Ljava/lang/Object;");
    d.class("t.G", OBJECT, &[], Some("G.java"));
    let c = Code::new(2, 1).line(2).iget(0, 1, field).ret_object(0);
    d.define("t.G", "getLock", "()Ljava/lang/Object;", PUBLIC, Some(c));
    let c = Code::new(2, 1).line(4).call(get, &[1]).result(0).enter(0).exit(0).ret();
    d.define("t.G", "use", "()V", PUBLIC, Some(c));
    assert_eq!(
        triples(&d.parse()),
        vec![("t.G.use:()V".to_string(), Some(4), "t.G.mLock".to_string())]
    );
}

/// A path past the bound is an opaque lock of its own.
#[test]
fn deep_paths_do_not_collide() {
    let list = |names: &[&str]| -> Vec<String> { names.iter().map(|n| n.to_string()).collect() };
    let base = || Lock { root: Root::Recv("t.C".to_string()), fields: list(&["a"]), mode: Mode::Plain };
    assert_eq!(MAX_PATH, 3);
    let near = base().append(&list(&["b", "c"]), Mode::Plain);
    assert!(!near.is_opaque());
    assert_eq!(near.name(), "t.C.a.b.c");
    let one = base().append(&list(&["b", "c", "d"]), Mode::Plain);
    let two = base().append(&list(&["b", "c", "e"]), Mode::Plain);
    assert!(one.is_opaque() && two.is_opaque());
    assert_eq!(one.name(), "?@t.C.a.b.c.d");
    assert_ne!(one.name(), two.name());
}

/// A lock that is handed on over many fields is the first of them.
#[test]
fn long_alias_chain_ends_at_its_root() {
    let mut d = Image::default();
    let class = "t.Chain";
    let fields: Vec<u16> = (0..=8).map(|i| d.field(class, &format!("m{i}"), OBJECT)).collect();
    d.class(class, OBJECT, &[], Some("Chain.java"));
    for i in 0..8 {
        let c = Code::new(2, 1).line(10 + i as u32).iget(0, 1, fields[i]).iput(0, 1, fields[i + 1]).ret();
        d.define(class, &format!("pass{i}"), "()V", PUBLIC, Some(c));
    }
    let c = Code::new(2, 1).line(30).iget(0, 1, fields[8]).enter(0).exit(0).ret();
    d.define(class, "use", "()V", PUBLIC, Some(c));
    assert_eq!(
        triples(&d.parse()),
        vec![("t.Chain.use:()V".to_string(), Some(30), "t.Chain.m0".to_string())]
    );
}

/// Aliases that come round again name no root, whatever other aliases there are.
#[test]
fn cyclic_aliases_stay_themselves() {
    for others in 0..4 {
        let mut d = Image::default();
        let class = "t.Round";
        let fields: Vec<u16> = (0..8).map(|i| d.field(class, &format!("m{i}"), OBJECT)).collect();
        d.class(class, OBJECT, &[], Some("Round.java"));
        let mut pairs = vec![(0, 1), (1, 0)];
        pairs.extend((0..others).map(|i| (2 + i, 3 + i)));
        for (from, to) in pairs {
            let c = Code::new(2, 1).line(10).iget(0, 1, fields[from]).iput(0, 1, fields[to]).ret();
            d.define(class, &format!("pass{from}to{to}"), "()V", PUBLIC, Some(c));
        }
        for i in 0..2 {
            let c = Code::new(2, 1).line(30).iget(0, 1, fields[i]).enter(0).exit(0).ret();
            d.define(class, &format!("use{i}"), "()V", PUBLIC, Some(c));
        }
        let found: Vec<String> = triples(&d.parse()).into_iter().map(|t| t.2).collect();
        assert_eq!(found, ["t.Round.m0", "t.Round.m1"], "{others}");
    }
}

/// The binder-under-lock pass flags exactly the interface-dispatched binder calls
/// made while a lock is held: a `synchronized` block (a field lock), a `synchronized`
/// method (holding `this`, which is lowered to an explicit monitor), and — the
/// interprocedural case — a binder call in a private helper whose caller holds the
/// lock. Neither the same call without a lock nor a plain (non-binder) helper under the
/// lock is flagged.
#[test]
fn fixture_binder_under_lock() {
    let d = binder().parse();
    let mut got: Vec<(String, Vec<String>, String)> = dex::binder::binder_under_lock(&d, false)
        .into_iter()
        .map(|f| {
            assert_eq!(f.file.as_deref(), Some("Binder.java"));
            (f.method, f.held, f.callee)
        })
        .collect();
    got.sort();
    let remote = "t.Binder$IFoo.doRemote".to_string();
    let mlock = vec!["t.Binder$Holder.mLock".to_string()];
    assert_eq!(
        got,
        vec![
            // interprocedural: lock held by the caller of a private helper
            ("t.Binder$Holder.helperLocked:()V".to_string(), mlock.clone(), remote.clone()),
            // intra: synchronized block holding a field lock
            ("t.Binder$Holder.underLock:()V".to_string(), mlock, remote.clone()),
            // intra: synchronized method holding `this`
            (
                "t.Binder$Holder.underSyncMethod:()V".to_string(),
                vec!["t.Binder$Holder".to_string()],
                remote
            ),
        ]
    );
}

/// With the whole program given, a helper that is not private has its caller's lock too.
#[test]
fn closed_world_infers_past_private_methods() {
    let mut d = binder();
    for c in &mut d.classes {
        for m in &mut c.direct {
            m.1 = PUBLIC;
        }
    }
    let d = d.parse();
    let helper = |closed: bool| {
        dex::binder::binder_under_lock(&d, closed)
            .iter()
            .any(|f| f.method == "t.Binder$Holder.helperLocked:()V")
    };
    assert!(!helper(false));
    assert!(helper(true));
}

// --- the lock-context index ---------------------------------------------------

/// mA may be held on entry to leaf() by the path top() -> mid() -> leaf(), and
/// nested()/other() take mA and mB in opposite orders, so the lock-order graph has exactly
/// the cycle {mA, mB}.
#[test]
fn fixture_ctx_index() {
    let d = ctx().parse();
    let idx = dex::ctx::build(&d, &dex::ctx::Options::default());
    assert!(idx.is_consistent());
    let m = |k: &str| {
        let v = idx.find_methods(k);
        assert_eq!(v.len(), 1, "{k}");
        v[0]
    };
    let l = |k: &str| {
        let v = idx.find_locks(k);
        assert_eq!(v.len(), 1, "{k}");
        v[0]
    };
    let (top, mid, leaf) = (m("t.Ctx.top:"), m("t.Ctx.mid:"), m("t.Ctx.leaf:"));
    let (ma, mb) = (l("t.Ctx.mA"), l("t.Ctx.mB"));

    assert_eq!(idx.may_held(top), Vec::<(u32, u8)>::new());
    assert_eq!(idx.may_held(mid), vec![(ma, 1)]);
    assert_eq!(idx.may_held(leaf), vec![(ma, 2)]);
    assert_eq!(idx.intra_held(top, 12), vec![ma]);

    let path = idx.witness(leaf, ma).expect("mA reaches leaf");
    assert_eq!(path.iter().map(|h| h.method).collect::<Vec<_>>(), vec![top, mid, leaf]);
    assert_eq!((path[0].acquire, path[0].call), (Some(12), Some(12)));
    assert_eq!((path[1].acquire, path[1].call), (None, Some(13)));
    assert_eq!((path[2].acquire, path[2].call), (None, None));

    let mut edges: Vec<(u32, u32)> = idx.order.iter().map(|e| (e.from, e.to)).collect();
    edges.sort_unstable();
    let mut want = vec![(ma, mb), (mb, ma)];
    want.sort_unstable();
    assert_eq!(edges, want);
    assert_eq!(idx.cycles(), vec![vec![ma.min(mb), ma.max(mb)]]);
    assert_eq!(idx.dist(leaf, ma), Some(2));
    assert_eq!(idx.dist(leaf, mb), None);
}

/// Binder-under-lock phrased over the lock-context index agrees with the dedicated
/// pass: the two intra sites at distance 0 and the private helper
/// at distance 1 (its lock is held by the caller), and nothing else.
#[test]
fn fixture_ctx_binder_sites() {
    let d = binder().parse();
    let idx = dex::ctx::build(&d, &dex::ctx::Options::default());
    let mut got: Vec<(String, String, u8)> = idx
        .binder_sites(8)
        .into_iter()
        .map(|(k, _, l, dist)| {
            let caller = idx.calls[k as usize].caller as usize;
            (idx.methods[caller].key.clone(), idx.locks[l as usize].clone(), dist)
        })
        .collect();
    got.sort();
    assert_eq!(
        got,
        vec![
            (
                "t.Binder$Holder.helperLocked:()V".to_string(),
                "t.Binder$Holder.mLock".to_string(),
                1
            ),
            ("t.Binder$Holder.underLock:()V".to_string(), "t.Binder$Holder.mLock".to_string(), 0),
            (
                "t.Binder$Holder.underSyncMethod:()V".to_string(),
                "t.Binder$Holder".to_string(),
                0
            ),
        ]
    );
}

/// Control-flow-aware held-lock tracking: the locks held at
/// each helper call are exactly those of its enclosing block, across an early
/// return, a catch handler, try/finally, a switch, a loop, a successful `tryLock`,
/// a read-write lock view, a lock taken/released through helper methods, and lambdas
/// the callee invokes (directly or transitively), stores, or cannot be inspected.
#[test]
fn fixture_cfg_held() {
    let d = cfg().parse();
    let idx = dex::ctx::build(&d, &dex::ctx::Options::default());
    assert!(idx.is_consistent());
    let held_at = |callee: &str| -> Vec<String> {
        let key = format!("t.Cfg.{callee}:()V");
        let t = idx.find_methods(&key);
        assert_eq!(t.len(), 1, "{key}");
        let mut v: Vec<String> = idx
            .calls
            .iter()
            .filter(|c| c.targets.contains(&t[0]))
            .flat_map(|c| c.held.iter().map(|&l| idx.locks[l as usize].clone()))
            .collect();
        v.sort();
        v.dedup();
        v
    };
    let a = vec!["t.Cfg.mA".to_string()];
    assert_eq!(held_at("after"), a, "code after an early return is still inside the block");
    assert_eq!(held_at("outside"), Vec::<String>::new());
    assert_eq!(held_at("inCatch"), a, "catch handler inherits the monitor");
    assert_eq!(held_at("inFinally"), a);
    assert_eq!(held_at("s1"), a);
    assert_eq!(held_at("s2"), a);
    assert_eq!(held_at("s3"), a);
    assert_eq!(held_at("body"), a);
    assert_eq!(held_at("tail"), Vec::<String>::new());
    assert_eq!(held_at("inTry"), vec!["t.Cfg.mL".to_string()]);
    assert_eq!(held_at("notTaken"), Vec::<String>::new(), "a failed tryLock holds nothing");
    assert_eq!(held_at("post"), Vec::<String>::new(), "tryLock result does not leak past the join");
    assert_eq!(held_at("inTry2"), vec!["t.Cfg.mL".to_string()]);
    assert_eq!(held_at("inRead"), vec!["t.Cfg.mRw.read".to_string()]);
    assert_eq!(held_at("afterRead"), Vec::<String>::new());
    assert_eq!(held_at("inHelperLock"), vec!["t.Cfg.mL".to_string()], "lock taken by a helper is held after it returns");
    assert_eq!(held_at("afterHelper"), Vec::<String>::new(), "lock released by a helper");

    // A lambda inherits the block's lock iff the callee invokes it — directly or
    // by passing it on. A stored one gets nothing; so does one handed to a callee
    // outside the inputs (its body cannot be inspected: assumed not held).
    let ma = idx.find_locks("t.Cfg.mA")[0];
    let caller_of = |callee: &str| -> u32 {
        let t = idx.find_methods(&format!("t.Cfg.{callee}:()V"))[0];
        idx.calls.iter().find(|c| c.targets.contains(&t)).expect("called").caller
    };
    assert!(idx.dist(caller_of("inLambda"), ma).is_some(), "callee invokes the lambda");
    assert!(idx.dist(caller_of("inLambda2"), ma).is_some(), "callee passes it to one that invokes it");
    assert_eq!(idx.dist(caller_of("inPosted"), ma), None, "stored lambda is not invoked");
    assert_eq!(idx.dist(caller_of("inExternal"), ma), None, "callee outside the inputs: assumed not held");
}

fn held_where(d: &Dex, class: &str, callee: &str) -> Vec<String> {
    let idx = dex::ctx::build(d, &dex::ctx::Options::default());
    let t = idx.find_methods(&format!("{class}.{callee}:()V"));
    let mut v: Vec<String> = idx
        .calls
        .iter()
        .filter(|c| c.targets.contains(&t[0]))
        .flat_map(|c| c.held.iter().map(|&l| idx.locks[l as usize].clone()))
        .collect();
    v.sort();
    v.dedup();
    v
}

/// Code that is laid out backwards over many jumps is reached with what is held.
#[test]
fn backward_layout_is_solved_to_the_end() {
    let mut d = Image::default();
    let class = "t.Back";
    let m_a = d.field(class, "mA", OBJECT);
    let body = d.method(class, "body", "()V");
    let labels: Vec<&'static str> = (0..=80).map(|i| -> &'static str { format!("l{i}").leak() }).collect();
    d.class(class, OBJECT, &[], Some("Back.java"));
    let mut c = Code::new(2, 1).line(3).iget(0, 1, m_a).enter(0).goto(labels[80]);
    c = c.label(labels[0]).line(4).call(body, &[1]).exit(0).ret();
    for i in 1..=80 {
        c = c.label(labels[i]).goto(labels[i - 1]);
    }
    d.define(class, "run", "()V", PUBLIC, Some(c));
    d.define(class, "body", "()V", PUBLIC, Some(Code::new(1, 1).line(9).ret()));
    assert_eq!(held_where(&d.parse(), class, "body"), vec!["t.Back.mA".to_string()]);
}

/// A lock that is taken many helpers down is held after the first of them returns.
#[test]
fn helper_chain_is_solved_to_the_end() {
    let mut d = Image::default();
    let class = "t.Deep";
    let m_l = d.field(class, "mL", LOCK);
    let lock = d.method(LOCK, "lock", "()V");
    let body = d.method(class, "body", "()V");
    let helpers: Vec<u16> = (0..=40).map(|i| d.method(class, &format!("take{i}"), "()V")).collect();
    d.class(class, OBJECT, &[], Some("Deep.java"));
    let c = Code::new(2, 1).line(3).iget(0, 1, m_l).call(lock, &[0]).ret();
    d.define(class, "take0", "()V", PUBLIC, Some(c));
    for i in 1..=40 {
        let c = Code::new(1, 1).line(3 + i as u32).call(helpers[i - 1], &[0]).ret();
        d.define(class, &format!("take{i}"), "()V", PUBLIC, Some(c));
    }
    let c = Code::new(1, 1).line(60).call(helpers[40], &[0]).call(body, &[0]).ret();
    d.define(class, "run", "()V", PUBLIC, Some(c));
    d.define(class, "body", "()V", PUBLIC, Some(Code::new(1, 1).line(70).ret()));
    assert_eq!(held_where(&d.parse(), class, "body"), vec!["t.Deep.mL".to_string()]);
}

/// A helper that takes a lock and calls itself settles.
#[test]
fn recursive_helper_settles() {
    let mut d = Image::default();
    let class = "t.Rec";
    let m_l = d.field(class, "mL", LOCK);
    let lock = d.method(LOCK, "lock", "()V");
    let unlock = d.method(LOCK, "unlock", "()V");
    let body = d.method(class, "body", "()V");
    let take = d.method(class, "take", "()V");
    let free = d.method(class, "free", "()V");
    d.class(class, OBJECT, &[], Some("Rec.java"));
    let c = Code::new(2, 1).line(3).iget(0, 1, m_l).call(lock, &[0]).if_eqz(0, "on").call(take, &[1]).label("on").ret();
    d.define(class, "take", "()V", PUBLIC, Some(c));
    let c = Code::new(2, 1).line(5).iget(0, 1, m_l).call(unlock, &[0]).if_eqz(0, "on").call(free, &[1]).label("on").ret();
    d.define(class, "free", "()V", PUBLIC, Some(c));
    let c = Code::new(1, 1).line(8).call(take, &[0]).call(body, &[0]).call(free, &[0]).ret();
    d.define(class, "run", "()V", PUBLIC, Some(c));
    d.define(class, "body", "()V", PUBLIC, Some(Code::new(1, 1).line(9).ret()));
    assert_eq!(held_where(&d.parse(), class, "body"), vec!["t.Rec.mL".to_string()]);
}

/// A lock is held on entry to private helpers however far down they are called.
#[test]
fn entry_locks_reach_deep_private_helpers() {
    let mut d = binder();
    let holder = "t.Binder$Holder";
    let m_lock = d.field(holder, "mLock", OBJECT);
    let m_foo = d.field(holder, "mFoo", "t.Binder$IFoo");
    let remote = d.method("t.Binder$IFoo", "doRemote", "()V");
    let steps: Vec<u16> = (0..=40).map(|i| d.method(holder, &format!("step{i}"), "()V")).collect();
    let direct = InvokeKind::Direct;
    for i in 0..40 {
        let c = Code::new(1, 1).line(100 + i as u32).invoke(direct, steps[i + 1], &[0]).ret();
        d.define(holder, &format!("step{i}"), "()V", PRIVATE, Some(c));
    }
    let c = Code::new(2, 1).line(150).iget(0, 1, m_foo).invoke(InvokeKind::Interface, remote, &[0]).ret();
    d.define(holder, "step40", "()V", PRIVATE, Some(c));
    let c = Code::new(2, 1).line(160).iget(0, 1, m_lock).enter(0).invoke(direct, steps[0], &[1]).exit(0).ret();
    d.define(holder, "begin", "()V", PUBLIC, Some(c));
    let found = dex::binder::binder_under_lock(&d.parse(), false);
    let deep = found.iter().find(|f| f.method == "t.Binder$Holder.step40:()V").expect("found");
    assert_eq!(deep.held, vec!["t.Binder$Holder.mLock".to_string()]);
}

#[test]
fn known_receiver_reaches_its_own_method() {
    // A and B override go(); one caller news an A, another holds a B in a field.
    let mut d = Image::default();
    let go = d.method("t.Base", "go", "()V");
    let a = d.class_ty("t.A");
    let m_b = d.field("t.User", "mB", "t.B");
    let m_base = d.field("t.User", "mBase", "t.Base");
    for (name, sup) in [("t.Base", OBJECT), ("t.A", "t.Base"), ("t.B", "t.Base")] {
        d.class(name, sup, &[], None);
        d.define(name, "go", "()V", PUBLIC, Some(Code::new(1, 1).ret()));
    }
    d.class("t.User", OBJECT, &[], None);
    d.define("t.User", "news", "()V", PUBLIC, Some(Code::new(2, 1).new_instance(0, a).call(go, &[0]).ret()));
    d.define("t.User", "holds", "()V", PUBLIC, Some(Code::new(2, 1).iget(0, 1, m_b).call(go, &[0]).ret()));
    d.define("t.User", "base", "()V", PUBLIC, Some(Code::new(2, 1).iget(0, 1, m_base).call(go, &[0]).ret()));
    d.define("t.User", "gets", "()V", PUBLIC, Some(Code::new(2, 1).op(&[0x12]).call(go, &[0]).ret()));
    let d = d.parse();
    let idx = dex::ctx::build(&d, &dex::ctx::Options::default());
    let reached = |m: &str| -> Vec<String> {
        let m = idx.find_methods(m)[0];
        let c = idx.calls.iter().find(|c| c.caller == m).unwrap();
        c.targets.iter().map(|t| idx.methods[*t as usize].key.clone()).collect()
    };
    assert_eq!(reached("t.User.news:"), ["t.A.go:()V"]);
    assert_eq!(reached("t.User.holds:"), ["t.B.go:()V"]);
    assert_eq!(reached("t.User.base:"), ["t.Base.go:()V"]);
    assert_eq!(reached("t.User.gets:"), ["t.Base.go:()V", "t.A.go:()V", "t.B.go:()V"]);
}

#[test]
fn wide_dispatch_is_left_unlinked() {
    let mut d = Image::default();
    let run = d.method("t.Job", "run", "()V");
    d.class("t.Job", OBJECT, &[], None);
    d.define("t.Job", "run", "()V", PUBLIC, None);
    for i in 0..3 {
        let name = format!("t.Job{i}");
        d.class(&name, OBJECT, &["t.Job"], None);
        d.define(&name, "run", "()V", PUBLIC, Some(Code::new(1, 1).ret()));
    }
    d.class("t.Pool", OBJECT, &[], None);
    let c = Code::new(2, 1).op(&[0x12]).invoke(InvokeKind::Interface, run, &[0]).ret();
    d.define("t.Pool", "work", "()V", PUBLIC, Some(c));
    let d = d.parse();
    let linked = |cap: usize| {
        let opts = dex::ctx::Options { cha_cap: cap, ..dex::ctx::Options::default() };
        dex::ctx::build(&d, &opts).calls[0].targets.len()
    };
    assert_eq!(linked(4), 4);
    assert_eq!(linked(3), 1);
}

#[test]
fn inversions_come_with_their_gate() {
    let d = ctx().parse();
    let idx = dex::ctx::build(&d, &dex::ctx::Options::default());
    let found = idx.inversions();
    assert_eq!(found.len(), 1);
    let (a, b, gate) = &found[0];
    assert_eq!((a.from, a.to), (b.to, b.from));
    assert_eq!(*gate, None);
}

/// Only a branch on the result of a `tryLock` says whether the lock was taken.
#[test]
fn try_lock_is_decided_by_its_own_result() {
    let mut d = Image::default();
    let class = "t.Try";
    let m_l = d.field(class, "mL", LOCK);
    let try_lock = d.method(LOCK, "tryLock", "()Z");
    let unlock = d.method(LOCK, "unlock", "()V");
    let (taken, missed) = (d.method(class, "taken", "()V"), d.method(class, "missed", "()V"));
    d.class(class, OBJECT, &[], Some("Try.java"));
    // boolean ok = mL.tryLock(); if (other != 0) {} if (ok) { taken(); mL.unlock(); } else { missed(); }
    let c = Code::new(6, 2)
        .line(3)
        .iget(0, 4, m_l)
        .call(try_lock, &[0])
        .op(&[0x0a | 1 << 8])
        .if_eqz(5, "test")
        .label("test")
        .if_eqz(1, "else")
        .call(taken, &[4])
        .call(unlock, &[0])
        .ret()
        .label("else")
        .call(missed, &[4])
        .ret();
    d.define(class, "run", "(I)V", PUBLIC, Some(c));
    for name in ["taken", "missed"] {
        d.define(class, name, "()V", PUBLIC, Some(Code::new(1, 1).line(9).ret()));
    }
    let idx = dex::ctx::build(&d.parse(), &dex::ctx::Options::default());
    let on_entry = |name: &str| {
        let m = idx.find_methods(&format!("t.Try.{name}:"));
        idx.may_held(m[0]).iter().map(|(l, _)| idx.locks[*l as usize].clone()).collect::<Vec<_>>()
    };
    assert_eq!(on_entry("taken"), vec!["t.Try.mL".to_string()]);
    assert_eq!(on_entry("missed"), Vec::<String>::new());
}

/// A `tryLock` is held on its success path only: the result may be copied before it is
/// tested, and where it is written over or never tested nothing is held.
#[test]
fn try_lock_is_held_on_success_only() {
    let mut d = Image::default();
    let class = "t.Tries";
    let m_l = d.field(class, "mL", LOCK);
    let try_lock = d.method(LOCK, "tryLock", "()Z");
    let unlock = d.method(LOCK, "unlock", "()V");
    let names = ["won", "lost", "early", "dropped", "untested", "again", "after"];
    let ids: HashMap<&str, u16> = names.iter().map(|n| (*n, d.method(class, n, "()V"))).collect();
    d.class(class, OBJECT, &[], Some("Tries.java"));
    // boolean ok = mL.tryLock(); early(); boolean b = ok; ok = false;
    // if (b) { won(); if (b) { again(); } mL.unlock(); after(); } else { lost(); }
    let c = Code::new(5, 1)
        .line(3)
        .iget(0, 4, m_l)
        .call(try_lock, &[0])
        .op(&[0x0a | 1 << 8])
        .call(ids["early"], &[4])
        .op(&[0x01 | 2 << 8 | 1 << 12])
        .op(&[0x12 | 1 << 8])
        .if_eqz(2, "else")
        .call(ids["won"], &[4])
        .if_eqz(2, "free")
        .call(ids["again"], &[4])
        .label("free")
        .call(unlock, &[0])
        .call(ids["after"], &[4])
        .ret()
        .label("else")
        .call(ids["lost"], &[4])
        .ret();
    d.define(class, "copies", "()V", PUBLIC, Some(c));
    // boolean ok = mL.tryLock(); ok = true; if (ok) { dropped(); }
    let c = Code::new(5, 1)
        .line(10)
        .iget(0, 4, m_l)
        .call(try_lock, &[0])
        .op(&[0x0a | 1 << 8])
        .op(&[0x12 | 1 << 8 | 1 << 12])
        .if_eqz(1, "end")
        .call(ids["dropped"], &[4])
        .label("end")
        .ret();
    d.define(class, "overwrites", "()V", PUBLIC, Some(c));
    // mL.tryLock(); untested();
    let c = Code::new(5, 1).line(20).iget(0, 4, m_l).call(try_lock, &[0]).call(ids["untested"], &[4]).ret();
    d.define(class, "ignores", "()V", PUBLIC, Some(c));
    for name in names {
        d.define(class, name, "()V", PUBLIC, Some(Code::new(1, 1).line(30).ret()));
    }
    let d = d.parse();
    let held = vec!["t.Tries.mL".to_string()];
    for name in ["won", "again"] {
        assert_eq!(held_where(&d, class, name), held, "{name}");
    }
    for name in ["early", "lost", "after", "dropped", "untested"] {
        assert_eq!(held_where(&d, class, name), Vec::<String>::new(), "{name}");
    }
}

/// A register that is written over holds no lock any more.
#[test]
fn overwritten_register_holds_no_lock() {
    let mut d = Image::default();
    let class = "t.Over";
    let m_a = d.field(class, "mA", OBJECT);
    let (held, not) = (d.method(class, "held", "()V"), d.method(class, "not", "()V"));
    d.class(class, OBJECT, &[], Some("Over.java"));
    let c = Code::new(4, 1).line(3).iget(0, 3, m_a).enter(0).call(held, &[3]).exit(0).ret();
    d.define(class, "keeps", "()V", PUBLIC, Some(c));
    // the lock is an element of an array
    let c = Code::new(4, 1).line(5).iget(0, 3, m_a).op(&[0x46, 0x0201]).enter(0).call(not, &[3]).exit(0).ret();
    d.define(class, "loses", "()V", PUBLIC, Some(c));
    for name in ["held", "not"] {
        d.define(class, name, "()V", PUBLIC, Some(Code::new(1, 1).line(9).ret()));
    }
    let d = d.parse();
    assert_eq!(held_where(&d, class, "held"), vec!["t.Over.mA".to_string()]);
    assert_eq!(held_where(&d, class, "not"), Vec::<String>::new());
}

/// Where a path that holds a lock twice joins one that holds it once, it is held once.
#[test]
fn join_keeps_the_smaller_count() {
    for twice_first in [true, false] {
        let mut d = Image::default();
        let class = "t.Twice";
        let m_l = d.field(class, "mL", LOCK);
        let lock = d.method(LOCK, "lock", "()V");
        let unlock = d.method(LOCK, "unlock", "()V");
        let (once, none) = (d.method(class, "once", "()V"), d.method(class, "none", "()V"));
        d.class(class, OBJECT, &[], Some("Twice.java"));
        // mL.lock(); if (x) { mL.lock(); } once(); mL.unlock(); none();
        let c = Code::new(4, 1).line(3).iget(0, 3, m_l).call(lock, &[0]);
        let c = if twice_first {
            c.if_eqz(1, "join").call(lock, &[0]).label("join")
        } else {
            c.if_nez(1, "more").goto("join").label("more").call(lock, &[0]).label("join")
        };
        let c = c.call(once, &[3]).call(unlock, &[0]).call(none, &[3]).ret();
        d.define(class, "run", "()V", PUBLIC, Some(c));
        for name in ["once", "none"] {
            d.define(class, name, "()V", PUBLIC, Some(Code::new(1, 1).line(9).ret()));
        }
        let d = d.parse();
        assert_eq!(held_where(&d, class, "once"), vec!["t.Twice.mL".to_string()]);
        assert_eq!(held_where(&d, class, "none"), Vec::<String>::new());
    }
}

/// A lock taken again while it is held orders nothing.
#[test]
fn reentrant_acquisition_orders_nothing() {
    let mut d = Image::default();
    let class = "t.Re";
    let m_a = d.field(class, "mA", OBJECT);
    let m_b = d.field(class, "mB", OBJECT);
    let again = d.method(class, "again", "()V");
    d.class(class, OBJECT, &[], Some("Re.java"));
    let c = Code::new(3, 1)
        .line(4)
        .iget(0, 2, m_a)
        .enter(0)
        .iget(1, 2, m_b)
        .enter(1)
        .line(5)
        .call(again, &[2])
        .exit(1)
        .exit(0)
        .ret();
    d.define(class, "outer", "()V", PUBLIC, Some(c));
    let c = Code::new(2, 1).line(8).iget(0, 1, m_a).enter(0).exit(0).ret();
    d.define(class, "again", "()V", PUBLIC, Some(c));
    let idx = dex::ctx::build(&d.parse(), &dex::ctx::Options::default());
    let (ma, mb) = (idx.find_locks("t.Re.mA")[0], idx.find_locks("t.Re.mB")[0]);
    let edges: Vec<(u32, u32, u32, u8)> =
        idx.order.iter().map(|e| (e.from, e.to, e.line, e.dist)).collect();
    assert_eq!(edges, vec![(ma, mb, 4, 0)]);
    assert!(idx.inversions().is_empty());
}

/// Two orders that both occur under a third lock are gated by it.
#[test]
fn common_outer_lock_gates_an_inversion() {
    let mut d = Image::default();
    let class = "t.Gate";
    let m_a = d.field(class, "mA", OBJECT);
    let m_b = d.field(class, "mB", OBJECT);
    let m_g = d.field(class, "mG", OBJECT);
    d.class(class, OBJECT, &[], Some("Gate.java"));
    for (name, first, second, line) in [("one", m_a, m_b, 3), ("two", m_b, m_a, 7)] {
        let c = Code::new(4, 1)
            .line(line)
            .iget(2, 3, m_g)
            .enter(2)
            .iget(0, 3, first)
            .enter(0)
            .iget(1, 3, second)
            .enter(1)
            .exit(1)
            .exit(0)
            .exit(2)
            .ret();
        d.define(class, name, "()V", PUBLIC, Some(c));
    }
    let idx = dex::ctx::build(&d.parse(), &dex::ctx::Options::default());
    let gate = idx.find_locks("t.Gate.mG")[0];
    let found = idx.inversions();
    assert_eq!(found.len(), 1);
    assert_eq!(found[0].2, Some(gate));
}

#[test]
fn index_reads_back_what_was_written() {
    let d = binder().parse();
    let idx = dex::ctx::build(&d, &dex::ctx::Options::default());
    let bytes = idx.write();
    let back = Index::read(&bytes).expect("reads back");
    assert!(back.is_consistent());
    assert_eq!(back.write(), bytes);
    assert_eq!(back.locks, idx.locks);
    assert_eq!(back.binder_sites(8), idx.binder_sites(8));

    assert_eq!(Index::read(&bytes[..4]).err(), Some(ReadError::Header));
    assert_eq!(Index::read(b"not one!").err(), Some(ReadError::NotAnIndex));
    assert_eq!(Index::read(&bytes[..12]).err(), Some(ReadError::Short));
    assert_eq!(ReadError::NotAnIndex.message(), "not a dexlock ctx index");
    let mut bad = bytes.clone();
    let at = bad.windows(2).position(|w| w == b"t.").unwrap();
    bad[at] = 0xff;
    assert_eq!(Index::read(&bad).err(), Some(ReadError::Text));
}

/// An index that is cut anywhere, or that starts otherwise, is refused.
#[test]
fn cut_index_is_refused() {
    let idx = dex::ctx::build(&binder().parse(), &dex::ctx::Options::default());
    assert!(!idx.binder.is_empty());
    let bytes = idx.write();
    for n in 0..bytes.len() {
        assert!(Index::read(&bytes[..n]).is_err(), "{n}");
    }
    for i in 0..8 {
        let mut other = bytes.clone();
        other[i] ^= 1;
        assert_eq!(Index::read(&other).err(), Some(ReadError::NotAnIndex));
    }
}

/// The header says whether a list of binder methods follows the tables.
#[test]
fn header_says_what_follows() {
    let plain = dex::ctx::build(&ctx().parse(), &dex::ctx::Options::default());
    let bytes = plain.write();
    assert_eq!(&bytes[..8], b"DXLKCTX1");
    assert_eq!(Index::read(&bytes).unwrap().write(), bytes);
    let mut other = bytes.clone();
    other[7] = b'2';
    assert_eq!(Index::read(&other).err(), Some(ReadError::Short));
    let with = dex::ctx::build(&binder().parse(), &dex::ctx::Options::default()).write();
    assert_eq!(&with[..8], b"DXLKCTX2");
    // an index of nothing: ten empty tables
    let mut empty = b"DXLKCTX1".to_vec();
    empty.extend([0; 40]);
    assert_eq!(Index::default().write(), empty);
    assert!(Index::read(&empty).unwrap().is_consistent());
}

/// Only what the index needs is read of a gzipped one: its trailer may be damaged.
#[test]
fn damaged_gzip_trailer_does_not_matter() {
    let idx = dex::ctx::build(&ctx().parse(), &dex::ctx::Options::default());
    let plain = idx.write();
    let zipped = save(&idx, true).unwrap();
    let mut bad = zipped.clone();
    let n = bad.len();
    bad[n - 6] ^= 0xff;
    assert_eq!(load(bad, true).unwrap().write(), plain);
    assert_eq!(load(zipped[..n - 3].to_vec(), true).unwrap().write(), plain);
    assert_eq!(load(zipped[..n / 2].to_vec(), true).err(), Some(LoadError::Gzip));
}

/// An index of nothing is consistent and answers with nothing.
#[test]
fn empty_index_answers_with_nothing() {
    let idx = Index::default();
    assert!(idx.is_consistent());
    assert!(idx.cycles().is_empty());
    assert!(idx.inversions().is_empty());
    assert!(idx.find_methods("t.").is_empty());
    assert!(idx.binder_sites(8).is_empty());
}

/// The report of a lock lists no method that holds it more than `depth` calls away.
#[test]
fn lock_report_keeps_to_the_depth() {
    let idx = dex::ctx::build(&ctx().parse(), &dex::ctx::Options::default());
    let at = |depth: u8| query(&idx, &Query::Lock("t.Ctx.mA".to_string()), depth);
    let (near, far) = (at(1), at(4));
    assert!(far.contains("[d=2]") && far.contains("t.Ctx.leaf"), "{far}");
    assert!(near.contains("[d=1]") && near.contains("t.Ctx.mid"), "{near}");
    assert!(!near.contains("[d=2]") && !near.contains("t.Ctx.leaf"), "{near}");
}

#[test]
fn stored_index_loads_gzipped_or_plain() {
    let d = ctx().parse();
    let idx = dex::ctx::build(&d, &dex::ctx::Options::default());
    let plain = save(&idx, false).unwrap();
    assert_eq!(plain, idx.write());
    let zipped = save(&idx, true).unwrap();
    assert_eq!(&zipped[..2], &[0x1f, 0x8b]);
    assert_eq!(load(zipped, true).unwrap().write(), plain);
    assert_eq!(load(plain.clone(), false).unwrap().write(), plain);
    assert_eq!(load(plain, true).err(), Some(LoadError::Gzip));
    assert_eq!(LoadError::Gzip.message(), "invalid gzip data");
    assert!(matches!(load(Vec::new(), false), Err(LoadError::Index(_))));
}

#[test]
fn report_answers_a_line() {
    let d = ctx().parse();
    let idx = dex::ctx::build(&d, &dex::ctx::Options::default());
    assert!(idx.is_consistent());
    let at = Query::At { file: "Ctx.java".to_string(), line: 14 };
    let text = query(&idx, &at, 4);
    assert!(text.contains("t.Ctx.leaf:()V"), "{text}");
    assert!(text.contains("[d=2] t.Ctx.mA"), "{text}");
    let none = query(&idx, &Query::At { file: "Ctx.java".to_string(), line: 99 }, 4);
    assert_eq!(none, "no method covers Ctx.java:99\n");
    match query_json(&idx, &at, 4) {
        dexlock::lockctx::answer::Answer::Points(ps) => {
            assert_eq!(ps.len(), 1);
            assert_eq!(ps[0].method, "t.Ctx.leaf:()V");
            assert_eq!(ps[0].may_held.len(), 1);
            assert_eq!((ps[0].may_held[0].lock.as_str(), ps[0].may_held[0].dist), ("t.Ctx.mA", 2));
        }
        _ => panic!("a line is answered with points"),
    }
    let lock = query(&idx, &Query::Lock("mA".to_string()), 4);
    assert!(lock.contains("t.Ctx.mA"), "{lock}");
    let cycles = query(&idx, &Query::Cycles, 4);
    assert!(cycles.contains("t.Ctx.mB"), "{cycles}");
    assert_eq!(short("com.example.Ctx.mA"), "Ctx.mA");
}

#[test]
fn report_quotes_what_was_not_found() {
    let d = ctx().parse();
    let idx = dex::ctx::build(&d, &dex::ctx::Options::default());
    let text = query(&idx, &Query::Lock("no\"pe".to_string()), 4);
    assert!(text.contains("\"no\\\"pe\""), "{text}");
}

// --- races --------------------------------------------------------------------

/// A field written under `mLock` three times and once without it, from a thread.
fn racy() -> Image {
    let mut d = Image::default();
    let class = "t.Racy";
    let m_lock = d.field(class, "mLock", OBJECT);
    let m_state = d.field(class, "mState", OBJECT);
    d.class(class, "java.lang.Thread", &[], Some("Racy.java"));
    for (i, name) in ["one", "two", "three", "four"].into_iter().enumerate() {
        let c = Code::new(3, 1)
            .line(10 + i as u32)
            .iget(0, 2, m_lock)
            .enter(0)
            .iput(1, 2, m_state)
            .exit(0)
            .ret();
        d.define(class, name, "()V", PUBLIC, Some(c));
    }
    d.define(class, "run", "()V", PUBLIC, Some(Code::new(2, 1).line(20).iput(0, 1, m_state).ret()));
    d
}

#[test]
fn inconsistent_discipline_is_found() {
    let d = racy().parse();
    let found = dex::race::survey(&d, &dex::race::Options::default()).unwrap();
    assert_eq!(found.len(), 1);
    let f = &found[0];
    assert_eq!((f.field.as_str(), f.guard.as_str()), ("t.Racy.mState", "t.Racy.mLock"));
    assert_eq!((f.guarded, f.total), (4, 5));
    assert_eq!(f.unguarded.len(), 1);
    assert_eq!(f.unguarded[0].method, "t.Racy.run:()V");
    assert_eq!(f.unguarded[0].line, Some(20));
    assert!(f.unguarded[0].write && f.unguarded[0].held.is_empty());
    assert_eq!(f.guarded_at.len(), 4);
    assert_eq!(f.guarded_at[0].held, ["t.Racy.mLock"]);
    assert_eq!(dex::race::races(found, &vec![false]).len(), 0);
    let found = dex::race::survey(&d, &dex::race::Options::default()).unwrap();
    assert_eq!(dex::race::races(found, &vec![true]).len(), 1);
    let strict = dex::race::Options { min_guarded: 5, ..dex::race::Options::default() };
    assert_eq!(dex::race::survey(&d, &strict).unwrap().len(), 0);
}

/// A write through an accessor counts where the accessor is called, but not in a
/// constructor.
#[test]
fn accessor_writes_in_constructors_do_not_race() {
    let with_caller = |name: &str| {
        let mut d = racy();
        d.classes[0].virtuals.retain(|m| m.1 != PUBLIC || m.2.as_ref().unwrap().lines[0].1 != 20);
        let m_state = d.field("t.Racy", "mState", OBJECT);
        let sig = "(Lt/Racy;Ljava/lang/Object;)V";
        let set = d.method("t.Racy", "access$002", sig);
        d.define("t.Racy", "access$002", sig, STATIC, Some(Code::new(2, 2).iput(1, 0, m_state).ret()));
        d.class("t.Racy$Worker", "java.lang.Thread", &[], Some("Racy.java"));
        let target = d.field("t.Racy$Worker", "this$0", "t.Racy");
        let c = Code::new(3, 1)
            .line(40)
            .iget(0, 2, target)
            .invoke(InvokeKind::Static, set, &[0, 1])
            .ret();
        d.define("t.Racy$Worker", name, "()V", PUBLIC, Some(c));
        let found = dex::race::survey(&d.parse(), &dex::race::Options::default()).unwrap();
        let at: Vec<String> = found
            .iter()
            .flat_map(|f| f.unguarded.iter().map(|a| a.method.clone()))
            .collect();
        at
    };
    assert_eq!(with_caller("run"), vec!["t.Racy$Worker.run:()V".to_string()]);
    assert_eq!(with_caller("<init>"), Vec::<String>::new());
}

/// A lock that is held twice at an access is held at one access.
#[test]
fn access_counts_once_for_a_lock() {
    let mut d = racy();
    let class = "t.Racy";
    let m_lock = d.field(class, "mLock", OBJECT);
    let m_state = d.field(class, "mState", OBJECT);
    let again = d.method(class, "againLocked", "()V");
    let c = Code::new(3, 1).line(50).iget(0, 2, m_lock).enter(0).iput(1, 2, m_state).exit(0).ret();
    d.define(class, "againLocked", "()V", PRIVATE, Some(c));
    let c = Code::new(3, 1)
        .line(60)
        .iget(0, 2, m_lock)
        .enter(0)
        .invoke(InvokeKind::Direct, again, &[2])
        .exit(0)
        .ret();
    d.define(class, "five", "()V", PUBLIC, Some(c));
    let found = dex::race::survey(&d.parse(), &dex::race::Options::default()).unwrap();
    assert_eq!(found.len(), 1);
    assert_eq!((found[0].guarded, found[0].total), (5, 6));
    assert_eq!(found[0].guarded_at.len(), 5);
    let at = found[0].guarded_at.iter().find(|a| a.method == "t.Racy.againLocked:()V").unwrap();
    assert_eq!(at.held, ["t.Racy.mLock", "t.Racy.mLock"]);
}

#[test]
fn a_handful_of_examples_is_shown() {
    let found = dex::race::survey(&racy().parse(), &dex::race::Options::default()).unwrap();
    assert_eq!(dex::race::examples(&found[0]).len(), 4);
    let access = |i: u32| dex::race::Access {
        method: format!("m{i}"),
        file: None,
        line: Some(i),
        write: false,
        held: Vec::new(),
        concurrent: false,
    };
    let many = dex::race::Finding {
        field: "f".to_string(),
        guard: "g".to_string(),
        guarded: 7,
        total: 8,
        guarded_at: (0..7).map(access).collect(),
        unguarded: Vec::new(),
    };
    let lines: Vec<Option<u32>> = dex::race::examples(&many).iter().map(|a| a.line).collect();
    assert_eq!(lines, (0..5).map(Some).collect::<Vec<_>>());
}

#[test]
fn final_and_volatile_fields_do_not_race() {
    let mut d = racy();
    let m_state = d.field("t.Racy", "mState", OBJECT);
    d.classes[0].fields = vec![(m_state, 0x40)];
    let d = d.parse();
    assert_eq!(dex::race::survey(&d, &dex::race::Options::default()).unwrap().len(), 0);
}

// --- from an image to its locks -------------------------------------------------

#[test]
fn index_of_an_image_answers_its_lines() {
    let index = build_index(vec![vec![locks().bytes()]]).unwrap();
    let r = Resolver::new("cache".to_string(), None, Options::default());
    let asked: Vec<String> = ["Locks.java:5", "Locks.java:6", "Locks.java:7"].iter().map(|s| s.to_string()).collect();
    let got = r.resolve(&index, &asked);
    assert_eq!(got.get("Locks.java:5").unwrap(), "t.Locks.mLock");
    assert_eq!(got.get("Locks.java:6").unwrap(), "t.Locks.sLock");
    assert_eq!(got.get("Locks.java:7").unwrap(), "N/A");
}

#[test]
fn lock_points_are_sorted() {
    let d = locks().parse();
    let points = lock_points(&d);
    let keys: Vec<(&str, Option<u32>)> = points.iter().map(|a| (a.method.as_str(), a.line)).collect();
    assert_eq!(
        keys,
        [("t.Locks.a:()V", Some(5)), ("t.Locks.b:()V", Some(6)), ("t.Locks.c:()V", None), ("t.Locks.d:()V", None)]
    );
}

#[test]
fn blobs_are_merged() {
    let a = locks().bytes();
    assert_eq!(dex::parse_dex_blob(&a).unwrap().classes.len(), 1);
    let blobs = dexlock::dex::input::parse_blobs(vec![a.clone(), binder().bytes(), a]).unwrap();
    assert_eq!(blobs.classes.len(), 3);
}
