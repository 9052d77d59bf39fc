//! Replaying a value change dump into waves: declarations become register waves, timestamps
//! extend every timeline, and value changes overwrite the latest sample.
use crate::numeral::push_char;
use crate::parse::parse_spec;
use crate::value::{chars_of, BitValue};
use crate::wave::Wave;
use crate::wtype::WaveType;
use vcd::Command::{
    ChangeScalar, ChangeVector, Enddefinitions, ScopeDef, Timescale, Timestamp, Upscope, VarDef,
};
use vcd::Parser;
use vstd::prelude::*;
use vstd::string::StrSliceExecFns;

verus! {

/// The declared kind of a dump variable.
#[derive(Clone, Copy, PartialEq, Eq, Structural, Debug)]
pub enum VarKind {
    Integer,
    Parameter,
    Real,
    Reg,
    Wire,
    Other,
}

/// A declared variable: its kind, width, identifier code and full name.
#[derive(PartialEq, Eq, Debug)]
pub struct VarDecl {
    pub kind: VarKind,
    pub size: u32,
    pub code: String,
    pub name: String,
}

/// A command of a dump, as the import reads it.
#[derive(PartialEq, Eq, Debug)]
pub enum DumpCommand {
    /// `$timescale`: the count and its unit's ticks per second.
    Timescale(u32, u64),
    /// `$scope` with the scope's name.
    Scope(String),
    /// `$upscope`.
    Upscope,
    /// `$var`: type name, width, identifier code, name.
    Var(String, u32, String, String),
    /// `$enddefinitions`.
    EndDefinitions,
    /// A time step.
    Timestamp(u64),
    /// A new value for the variables of a code: one symbol per bit, most significant first.
    Change(String, String),
    /// Anything else: comments, dates, versions, real and string changes, simulation
    /// commands.
    Other,
}

/// What a dump command holds, as plain values.
pub enum CommandView {
    Timescale(u32, u64),
    Scope(Seq<char>),
    Upscope,
    Var(Seq<char>, u32, Seq<char>, Seq<char>),
    EndDefinitions,
    Timestamp(u64),
    Change(Seq<char>, Seq<char>),
    Other,
}

impl View for DumpCommand {
    type V = CommandView;

    open spec fn view(&self) -> CommandView {
        match self {
            DumpCommand::Timescale(n, d) => CommandView::Timescale(*n, *d),
            DumpCommand::Scope(id) => CommandView::Scope(id@),
            DumpCommand::Upscope => CommandView::Upscope,
            DumpCommand::Var(t, size, code, name) => CommandView::Var(t@, *size, code@, name@),
            DumpCommand::EndDefinitions => CommandView::EndDefinitions,
            DumpCommand::Timestamp(t) => CommandView::Timestamp(*t),
            DumpCommand::Change(code, sym) => CommandView::Change(code@, sym@),
            DumpCommand::Other => CommandView::Other,
        }
    }
}

/// The views of a list of commands.
pub open spec fn command_views(s: Seq<DumpCommand>) -> Seq<CommandView> {
    s.map_values(|c: DumpCommand| c@)
}

/// A declaration as plain values: kind, width, code, full name.
pub type DeclView = (VarKind, u32, Seq<char>, Seq<char>);

/// The views of a list of declarations.
pub open spec fn decl_views(s: Seq<VarDecl>) -> Seq<DeclView> {
    s.map_values(|d: VarDecl| (d.kind, d.size, d.code@, d.name@))
}

/// Why a dump cannot be imported.
#[derive(Clone, Copy, PartialEq, Eq, Structural, Debug)]
pub enum ImportError {
    /// The dump does not parse.
    Unreadable,
    /// The declarations are malformed: a scope closed that was not open, one left open, a
    /// time step or value change among them, or no `$enddefinitions`.
    Header,
}

/// The kind of wave a declaration becomes: integers, parameters, reals, registers and wires
/// of 1 to 512 bits become registers of their width; anything else is not taken.
pub open spec fn wave_type_for(kind: VarKind, size: u32) -> Option<WaveType> {
    if kind != VarKind::Other && 1 <= size <= 512 {
        Some(WaveType::Reg(size as usize))
    } else {
        None
    }
}

pub fn type_for(kind: VarKind, size: u32) -> (r: Option<WaveType>)
    ensures
        r == wave_type_for(kind, size),
{
    match kind {
        VarKind::Other => None,
        _ => if 1 <= size && size <= 512 {
            Some(WaveType::Reg(size as usize))
        } else {
            None
        },
    }
}

/// The declarations that become waves, in order.
pub open spec fn taken(s: Seq<DeclView>) -> Seq<DeclView>
    decreases s.len(),
{
    if s.len() == 0 {
        Seq::empty()
    } else if wave_type_for(s.last().0, s.last().1) is Some {
        taken(s.drop_last()).push(s.last())
    } else {
        taken(s.drop_last())
    }
}

/// A fresh wave for a declaration: named as declared, a register of its width, one zero
/// sample.
pub open spec fn fresh_wave(w: Wave, d: DeclView) -> bool {
    &&& w.wf()
    &&& w.label() == d.3
    &&& w.kind() == WaveType::Reg(d.1 as usize)
    &&& w.samples().len() == 1
    &&& w.samples()[0].magnitude() == 0
}

/// One wave per declaration that is taken, and beside it the declaration's code. The codes
/// sit in a list next to the waves rather than in a hash map keyed by code: the lookup
/// compares strings, whose equality is specified, and a code may name several variables.
pub fn declare(decls: &Vec<VarDecl>) -> (r: (Vec<Wave>, Vec<String>))
    ensures
        r.0@.len() == taken(decl_views(decls@)).len(),
        r.1@.len() == taken(decl_views(decls@)).len(),
        forall|k: int| 0 <= k < r.0@.len() ==> fresh_wave(#[trigger] r.0@[k], taken(decl_views(decls@))[k]),
        forall|k: int| 0 <= k < r.1@.len() ==> (#[trigger] r.1@[k])@ == taken(decl_views(decls@))[k].2,
{
    let mut waves: Vec<Wave> = Vec::new();
    let mut codes: Vec<String> = Vec::new();
    let mut i: usize = 0;
    let ghost dv = decl_views(decls@);
    proof {
        assert(dv.take(0) =~= Seq::<DeclView>::empty());
    }
    while i < decls.len()
        invariant
            dv == decl_views(decls@),
            i <= decls@.len(),
            waves@.len() == taken(dv.take(i as int)).len(),
            codes@.len() == waves@.len(),
            forall|k: int| 0 <= k < waves@.len() ==> fresh_wave(#[trigger] waves@[k], taken(dv.take(i as int))[k]),
            forall|k: int| 0 <= k < codes@.len() ==> (#[trigger] codes@[k])@ == taken(dv.take(i as int))[k].2,
        decreases decls@.len() - i,
    {
        let d = &decls[i];
        proof {
            assert(dv.take(i as int + 1).drop_last() =~= dv.take(i as int));
            assert(dv.take(i as int + 1).last() == dv[i as int]);
        }
        match type_for(d.kind, d.size) {
            Some(t) => {
                let mut w = Wave::new(d.name.clone(), 1);
                w.set_type(t);
                proof {
                    vstd::arithmetic::power2::lemma_pow2_pos(d.size as nat);
                    vstd::arithmetic::div_mod::lemma_small_mod(0, vstd::arithmetic::power2::pow2(d.size as nat));
                    assert(w.samples()[0].magnitude() == 0);
                }
                waves.push(w);
                codes.push(d.code.clone());
            },
            None => {},
        }
        i = i + 1;
    }
    proof {
        assert(dv.take(decls@.len() as int) =~= dv);
    }
    (waves, codes)
}

/// The bit a dump symbol stands for: `0` and `1` as they are, an unknown (`x`) and a high
/// impedance (`z`) as chosen; nothing for another symbol.
pub open spec fn bit_for(c: char, unknown_bit: bool, high_z_bit: bool) -> Option<char> {
    if c == '0' {
        Some('0')
    } else if c == '1' {
        Some('1')
    } else if c == 'x' || c == 'X' {
        Some(if unknown_bit { '1' } else { '0' })
    } else if c == 'z' || c == 'Z' {
        Some(if high_z_bit { '1' } else { '0' })
    } else {
        None
    }
}

/// The binary digits of a change, or nothing when a symbol is not a logic value.
pub open spec fn decoded(s: Seq<char>, unknown_bit: bool, high_z_bit: bool) -> Option<Seq<char>>
    decreases s.len(),
{
    if s.len() == 0 {
        Some(Seq::empty())
    } else {
        match (decoded(s.drop_last(), unknown_bit, high_z_bit), bit_for(s.last(), unknown_bit, high_z_bit)) {
            (Some(p), Some(c)) => Some(p.push(c)),
            _ => None,
        }
    }
}

/// The magnitude a change gives a wave of `width` bits: the decoded bits read in binary,
/// when there are at most 512 symbols, all decode, and the value fits.
pub open spec fn change_value(s: Seq<char>, width: nat, unknown_bit: bool, high_z_bit: bool) -> Option<nat> {
    if s.len() > 512 {
        None
    } else {
        match decoded(s, unknown_bit, high_z_bit) {
            Some(bits) => match parse_spec(seq!['0', 'b'] + bits, width) {
                Ok((_, m)) => Some(m),
                Err(_) => None,
            },
            None => None,
        }
    }
}

/// Decodes the symbols of a change into the text of a binary value.
fn decode(s: &Vec<char>, unknown_bit: bool, high_z_bit: bool) -> (r: Option<Vec<char>>)
    ensures
        r matches Some(v) ==> decoded(s@, unknown_bit, high_z_bit) matches Some(b) && v@ == seq!['0', 'b'] + b,
        r is None ==> decoded(s@, unknown_bit, high_z_bit) is None,
{
    let mut out: Vec<char> = Vec::new();
    out.push('0');
    out.push('b');
    let mut i: usize = 0;
    proof {
        assert(s@.take(0) =~= Seq::<char>::empty());
        assert(out@ =~= seq!['0', 'b'] + Seq::<char>::empty());
    }
    while i < s.len()
        invariant
            i <= s@.len(),
            decoded(s@.take(i as int), unknown_bit, high_z_bit) matches Some(b) && out@ == seq!['0', 'b'] + b,
        decreases s@.len() - i,
    {
        let c = s[i];
        proof {
            assert(s@.take(i as int + 1).drop_last() =~= s@.take(i as int));
            assert(s@.take(i as int + 1).last() == c);
        }
        let bit = if c == '0' {
            '0'
        } else if c == '1' {
            '1'
        } else if c == 'x' || c == 'X' {
            if unknown_bit { '1' } else { '0' }
        } else if c == 'z' || c == 'Z' {
            if high_z_bit { '1' } else { '0' }
        } else {
            proof {
                lemma_decoded_none(s@, i as int, unknown_bit, high_z_bit);
            }
            return None;
        };
        let ghost before = out@;
        out.push(bit);
        proof {
            let b = decoded(s@.take(i as int), unknown_bit, high_z_bit)->0;
            assert(out@ =~= seq!['0', 'b'] + b.push(bit));
        }
        i = i + 1;
    }
    proof {
        assert(s@.take(s@.len() as int) =~= s@);
    }
    Some(out)
}

/// A symbol that does not decode spoils every longer prefix.
proof fn lemma_decoded_none(s: Seq<char>, i: int, u: bool, z: bool)
    requires
        0 <= i < s.len(),
        bit_for(s[i], u, z) is None,
    ensures
        decoded(s, u, z) is None,
    decreases s.len() - i,
{
    if i == s.len() - 1 {
    } else {
        lemma_decoded_none(s.drop_last(), i, u, z);
    }
}

/// The samples grown to `n` by repeating the last one.
pub open spec fn extended(s: Seq<BitValue>, n: nat) -> Seq<BitValue> {
    if n <= s.len() {
        s
    } else {
        s + Seq::new((n - s.len()) as nat, |k: int| s.last())
    }
}

/// The sample index of timestamp `t` under a timescale of `count` units of `unit` ticks
/// per second: `t * count / unit`.
pub open spec fn tick_index(t: u64, count: u32, unit: u64) -> nat {
    (t as nat * count as nat) / (unit as nat)
}

/// What one record does to the waves, whose codes are `codes`: a timestamp `t` extends every
/// timeline to `tick_index(t) + 1` samples by repeating the last; a change whose value
/// decodes and fits overwrites the last sample of every wave of its code with that value;
/// other records change nothing.
pub fn apply_record(
    waves: &mut Vec<Wave>,
    codes: &Vec<String>,
    rec: &DumpCommand,
    count: u32,
    unit: u64,
    unknown_bit: bool,
    high_z_bit: bool,
)
    requires
        unit > 0,
        old(waves)@.len() == codes@.len(),
        forall|i: int| 0 <= i < old(waves)@.len() ==> (#[trigger] old(waves)@[i]).wf() && old(waves)@[i].samples().len() > 0,
    ensures
        final(waves)@.len() == old(waves)@.len(),
        forall|i: int| 0 <= i < final(waves)@.len() ==> {
            &&& (#[trigger] final(waves)@[i]).wf()
            &&& final(waves)@[i].samples().len() > 0
            &&& final(waves)@[i].kind() == old(waves)@[i].kind()
            &&& final(waves)@[i].label() == old(waves)@[i].label()
            &&& match rec {
                DumpCommand::Timestamp(t) => final(waves)@[i].samples() == if tick_index(*t, count, unit) < usize::MAX {
                    extended(old(waves)@[i].samples(), tick_index(*t, count, unit) + 1)
                } else {
                    old(waves)@[i].samples()
                },
                DumpCommand::Change(code, sym) => {
                    let old_s = old(waves)@[i].samples();
                    let new_s = final(waves)@[i].samples();
                    match change_value(sym@, old(waves)@[i].kind().width(), unknown_bit, high_z_bit) {
                        Some(m) => if codes@[i]@ == code@ {
                            &&& new_s.len() == old_s.len()
                            &&& forall|j: int| 0 <= j < new_s.len() - 1 ==> #[trigger] new_s[j] == old_s[j]
                            &&& new_s.last().magnitude() == m
                            &&& new_s.last().width() == old(waves)@[i].kind().width()
                            &&& !new_s.last().is_neg()
                        } else {
                            new_s == old_s
                        },
                        None => new_s == old_s,
                    }
                },
                _ => final(waves)@[i].samples() == old(waves)@[i].samples(),
            }
        },
{
    match rec {
        DumpCommand::Timestamp(t) => {
            proof {
                assert((*t as nat) * (count as nat) <= 0xffff_ffff_ffff_ffff * 0xffff_ffffnat) by (nonlinear_arith)
                    requires
                        *t <= 0xffff_ffff_ffff_ffffu64,
                        count <= 0xffff_ffffu32,
                ;
            }
            let step: u128 = (*t as u128) * (count as u128) / (unit as u128);
            if step < usize::MAX as u128 {
                let n = (step + 1) as usize;
                let mut i: usize = 0;
                while i < waves.len()
                    invariant
                        i <= waves@.len(),
                        waves@.len() == old(waves)@.len(),
                        n == step + 1,
                        step == tick_index(*t, count, unit),
                        step < usize::MAX,
                        forall|j: int| i <= j < waves@.len() ==> #[trigger] waves@[j] == old(waves)@[j],
                        forall|j: int| 0 <= j < old(waves)@.len() ==> (#[trigger] old(waves)@[j]).wf() && old(waves)@[j].samples().len() > 0,
                        forall|j: int| 0 <= j < i ==> {
                            &&& (#[trigger] waves@[j]).wf()
                            &&& waves@[j].samples().len() > 0
                            &&& waves@[j].kind() == old(waves)@[j].kind()
                            &&& waves@[j].label() == old(waves)@[j].label()
                            &&& waves@[j].samples() == extended(old(waves)@[j].samples(), n as nat)
                        },
                    decreases waves@.len() - i,
                {
                    let mut w = waves.remove(i);
                    let ghost s0 = w.samples();
                    w.extend_by_last(n);
                    proof {
                        if n > s0.len() {
                            assert(w.samples() =~= extended(s0, n as nat));
                        }
                    }
                    waves.insert(i, w);
                    i = i + 1;
                }
            }
        },
        DumpCommand::Change(code, sym) => {
            let chars = chars_of(sym.as_str());
            if chars.len() > 512 {
                return;
            }
            let text = match decode(&chars, unknown_bit, high_z_bit) {
                Some(t) => t,
                None => {
                    return;
                },
            };
            let mut i: usize = 0;
            while i < waves.len()
                invariant
                    i <= waves@.len(),
                    waves@.len() == old(waves)@.len(),
                    codes@.len() == waves@.len(),
                    chars@ == sym@,
                    chars@.len() <= 512,
                    decoded(chars@, unknown_bit, high_z_bit) matches Some(b) && text@ == seq!['0', 'b'] + b,
                    forall|j: int| i <= j < waves@.len() ==> #[trigger] waves@[j] == old(waves)@[j],
                    forall|j: int| 0 <= j < old(waves)@.len() ==> (#[trigger] old(waves)@[j]).wf() && old(waves)@[j].samples().len() > 0,
                    forall|j: int| 0 <= j < i ==> {
                        let old_s = old(waves)@[j].samples();
                        let new_s = (#[trigger] waves@[j]).samples();
                        &&& waves@[j].wf()
                        &&& new_s.len() > 0
                        &&& waves@[j].kind() == old(waves)@[j].kind()
                        &&& waves@[j].label() == old(waves)@[j].label()
                        &&& match change_value(sym@, old(waves)@[j].kind().width(), unknown_bit, high_z_bit) {
                            Some(m) => if codes@[j]@ == code@ {
                                &&& new_s.len() == old_s.len()
                                &&& forall|k: int| 0 <= k < new_s.len() - 1 ==> #[trigger] new_s[k] == old_s[k]
                                &&& new_s.last().magnitude() == m
                                &&& new_s.last().width() == old(waves)@[j].kind().width()
                                &&& !new_s.last().is_neg()
                            } else {
                                new_s == old_s
                            },
                            None => new_s == old_s,
                        }
                    },
                decreases waves@.len() - i,
            {
                if codes[i].eq(code) {
                    let mut w = waves.remove(i);
                    let mut v = BitValue::new(w.reg_size());
                    let res = v.parse_chars(&text);
                    if res.is_ok() {
                        proof {
                            assert(v.is_neg() == (text@[0] == '-'));
                        }
                        w.set_last_value(v);
                    }
                    waves.insert(i, w);
                }
                i = i + 1;
            }
        },
        _ => {},
    }
}

/// The magnitudes of the samples.
pub open spec fn mags(s: Seq<BitValue>) -> Seq<nat> {
    s.map_values(|v: BitValue| v.magnitude())
}

/// Magnitudes grown to `n` by repeating the last one.
pub open spec fn extended_mags(ms: Seq<nat>, n: nat) -> Seq<nat> {
    if n <= ms.len() {
        ms
    } else {
        ms + Seq::new((n - ms.len()) as nat, |k: int| ms.last())
    }
}

/// What one record does to the magnitudes of a wave of `width` bits and code `code`.
pub open spec fn replay_step(
    ms: Seq<nat>,
    rec: CommandView,
    code: Seq<char>,
    width: nat,
    count: u32,
    unit: u64,
    unknown_bit: bool,
    high_z_bit: bool,
) -> Seq<nat> {
    match rec {
        CommandView::Timestamp(t) => if tick_index(t, count, unit) < usize::MAX {
            extended_mags(ms, tick_index(t, count, unit) + 1)
        } else {
            ms
        },
        CommandView::Change(c, sym) => match change_value(sym, width, unknown_bit, high_z_bit) {
            Some(m) => if c == code && ms.len() > 0 {
                ms.update(ms.len() - 1, m)
            } else {
                ms
            },
            None => ms,
        },
        _ => ms,
    }
}

/// The magnitudes of a wave of `width` bits and code `code` after the records, from `ms`.
pub open spec fn replay(
    ms: Seq<nat>,
    recs: Seq<CommandView>,
    code: Seq<char>,
    width: nat,
    count: u32,
    unit: u64,
    unknown_bit: bool,
    high_z_bit: bool,
) -> Seq<nat>
    decreases recs.len(),
{
    if recs.len() == 0 {
        ms
    } else {
        replay_step(
            replay(ms, recs.drop_last(), code, width, count, unit, unknown_bit, high_z_bit),
            recs.last(),
            code,
            width,
            count,
            unit,
            unknown_bit,
            high_z_bit,
        )
    }
}

proof fn lemma_step_mags(
    old_w: Wave,
    new_w: Wave,
    rec: DumpCommand,
    code: Seq<char>,
    count: u32,
    unit: u64,
    unknown_bit: bool,
    high_z_bit: bool,
)
    requires
        old_w.samples().len() > 0,
        match rec {
            DumpCommand::Timestamp(t) => new_w.samples() == if tick_index(t, count, unit) < usize::MAX {
                extended(old_w.samples(), tick_index(t, count, unit) + 1)
            } else {
                old_w.samples()
            },
            DumpCommand::Change(c, sym) => {
                let old_s = old_w.samples();
                let new_s = new_w.samples();
                match change_value(sym@, old_w.kind().width(), unknown_bit, high_z_bit) {
                    Some(m) => if code == c@ {
                        &&& new_s.len() == old_s.len()
                        &&& forall|j: int| 0 <= j < new_s.len() - 1 ==> #[trigger] new_s[j] == old_s[j]
                        &&& new_s.last().magnitude() == m
                    } else {
                        new_s == old_s
                    },
                    None => new_s == old_s,
                }
            },
            _ => new_w.samples() == old_w.samples(),
        },
    ensures
        mags(new_w.samples()) == replay_step(
            mags(old_w.samples()),
            rec@,
            code,
            old_w.kind().width(),
            count,
            unit,
            unknown_bit,
            high_z_bit,
        ),
{
    let os = old_w.samples();
    let ns = new_w.samples();
    match rec {
        DumpCommand::Timestamp(t) => {
            if tick_index(t, count, unit) < usize::MAX {
                let n = tick_index(t, count, unit) + 1;
                if n > os.len() {
                    assert(mags(ns) =~= extended_mags(mags(os), n));
                }
            }
        },
        DumpCommand::Change(c, sym) => {
            match change_value(sym@, old_w.kind().width(), unknown_bit, high_z_bit) {
                Some(m) => {
                    if code == c@ {
                        assert(mags(ns) =~= mags(os).update(os.len() - 1, m));
                    }
                },
                None => {},
            }
        },
        _ => {},
    }
}

/// The waves that declarations and body records give: one per declaration that is taken
/// (see `wave_type_for`), in order, named as declared, a register of the declared width that
/// starts with one zero sample and then follows the records (see `replay`).
pub open spec fn imported(
    ws: Seq<Wave>,
    decls: Seq<DeclView>,
    records: Seq<CommandView>,
    count: u32,
    unit: u64,
    unknown_bit: bool,
    high_z_bit: bool,
) -> bool {
    let t = taken(decls);
    &&& ws.len() == t.len()
    &&& forall|k: int| 0 <= k < ws.len() ==> {
        &&& (#[trigger] ws[k]).wf()
        &&& ws[k].label() == t[k].3
        &&& ws[k].kind() == WaveType::Reg(t[k].1 as usize)
        &&& mags(ws[k].samples()) == replay(
            seq![0nat],
            records,
            t[k].2,
            t[k].1 as nat,
            count,
            unit,
            unknown_bit,
            high_z_bit,
        )
    }
}

/// The waves a dump gives from its declarations and body records, under a timescale of
/// `count` units of `unit` ticks per second (see `imported`).
pub fn import_records(
    decls: &Vec<VarDecl>,
    records: &Vec<DumpCommand>,
    count: u32,
    unit: u64,
    unknown_bit: bool,
    high_z_bit: bool,
) -> (r: Vec<Wave>)
    requires
        unit > 0,
    ensures
        imported(r@, decl_views(decls@), command_views(records@), count, unit, unknown_bit, high_z_bit),
{
    let (mut waves, codes) = declare(decls);
    let ghost t = taken(decl_views(decls@));
    let ghost rv = command_views(records@);
    proof {
        assert forall|k: int| 0 <= k < waves@.len() implies mags((#[trigger] waves@[k]).samples()) =~= seq![0nat] by {}
        assert(rv.take(0) =~= Seq::<CommandView>::empty());
    }
    let mut i: usize = 0;
    while i < records.len()
        invariant
            unit > 0,
            i <= records@.len(),
            t == taken(decl_views(decls@)),
            rv == command_views(records@),
            waves@.len() == t.len(),
            codes@.len() == t.len(),
            forall|k: int| 0 <= k < codes@.len() ==> (#[trigger] codes@[k])@ == t[k].2,
            forall|k: int| 0 <= k < waves@.len() ==> {
                &&& (#[trigger] waves@[k]).wf()
                &&& waves@[k].samples().len() > 0
                &&& waves@[k].label() == t[k].3
                &&& waves@[k].kind() == WaveType::Reg(t[k].1 as usize)
                &&& mags(waves@[k].samples()) == replay(
                    seq![0nat],
                    rv.take(i as int),
                    t[k].2,
                    t[k].1 as nat,
                    count,
                    unit,
                    unknown_bit,
                    high_z_bit,
                )
            },
        decreases records@.len() - i,
    {
        let ghost before = waves@;
        apply_record(&mut waves, &codes, &records[i], count, unit, unknown_bit, high_z_bit);
        proof {
            assert(rv.take(i as int + 1).drop_last() =~= rv.take(i as int));
            assert(rv.take(i as int + 1).last() == records@[i as int]@);
            assert forall|k: int| 0 <= k < waves@.len() implies mags((#[trigger] waves@[k]).samples())
                == replay(
                seq![0nat],
                rv.take(i as int + 1),
                t[k].2,
                t[k].1 as nat,
                count,
                unit,
                unknown_bit,
                high_z_bit,
            ) by {
                lemma_step_mags(before[k], waves@[k], records@[i as int], t[k].2, count, unit, unknown_bit, high_z_bit);
            }
        }
        i = i + 1;
    }
    proof {
        assert(rv.take(records@.len() as int) =~= rv);
    }
    waves
}

/// The commands that vcd's parser reads from the bytes of a dump, in order, or nothing when
/// one of them does not parse.
pub uninterp spec fn dump_commands(bytes: Seq<u8>) -> Option<Seq<CommandView>>;

/// Relies on vcd::Parser (`new`, then `Iterator::next` until the end): the dump's commands,
/// or `None` at the first that does not parse. Each is turned into text by the Display of
/// vcd::VarType, vcd::IdCode, vcd::Value and vcd::Vector, and a timescale unit into its
/// ticks per second by vcd::TimescaleUnit::divisor (a power of ten from 1 to 10^15).
#[verifier::external_body]
fn read_commands(bytes: &[u8]) -> (r: Option<Vec<DumpCommand>>)
    ensures
        match r {
            Some(v) => dump_commands(bytes@) == Some(command_views(v@)) && forall|i: int|
                0 <= i < v@.len() ==> ((#[trigger] v@[i]) matches DumpCommand::Timescale(_, d) ==> d >= 1),
            None => dump_commands(bytes@) is None,
        },
{
    let mut out = vec![];
    for c in Parser::new(bytes) {
        out.push(match c.ok()? {
            Timescale(n, u) => DumpCommand::Timescale(n, u.divisor()),
            ScopeDef(_, id) => DumpCommand::Scope(id),
            Upscope => DumpCommand::Upscope,
            VarDef(t, n, id, r, _) => DumpCommand::Var(t.to_string(), n, id.to_string(), r),
            Enddefinitions => DumpCommand::EndDefinitions,
            Timestamp(t) => DumpCommand::Timestamp(t),
            ChangeScalar(id, v) => DumpCommand::Change(id.to_string(), v.to_string()),
            ChangeVector(id, v) => DumpCommand::Change(id.to_string(), v.to_string()),
            _ => DumpCommand::Other,
        });
    }
    Some(out)
}

/// The kind a variable type name stands for.
pub open spec fn var_kind_of(t: Seq<char>) -> VarKind {
    if t == "integer"@ {
        VarKind::Integer
    } else if t == "parameter"@ {
        VarKind::Parameter
    } else if t == "real"@ {
        VarKind::Real
    } else if t == "reg"@ {
        VarKind::Reg
    } else if t == "wire"@ {
        VarKind::Wire
    } else {
        VarKind::Other
    }
}

/// Whether `v` holds exactly the characters of `lit`.
fn same_text(v: &Vec<char>, lit: &str) -> (r: bool)
    ensures
        r == (v@ == lit@),
{
    let n = lit.unicode_len();
    if v.len() != n {
        return false;
    }
    let mut i: usize = 0;
    while i < n
        invariant
            n == lit@.len(),
            v@.len() == n,
            i <= n,
            forall|j: int| 0 <= j < i ==> v@[j] == lit@[j],
        decreases n - i,
    {
        if v[i] != lit.get_char(i) {
            return false;
        }
        i = i + 1;
    }
    assert(v@ =~= lit@);
    true
}

/// The kind a variable type name stands for.
pub fn kind_of_text(t: &String) -> (r: VarKind)
    ensures
        r == var_kind_of(t@),
{
    let c = chars_of(t.as_str());
    if same_text(&c, "integer") {
        VarKind::Integer
    } else if same_text(&c, "parameter") {
        VarKind::Parameter
    } else if same_text(&c, "real") {
        VarKind::Real
    } else if same_text(&c, "reg") {
        VarKind::Reg
    } else if same_text(&c, "wire") {
        VarKind::Wire
    } else {
        VarKind::Other
    }
}

/// `a.b`, or `b` alone when `a` is empty.
pub open spec fn scoped(a: Seq<char>, b: Seq<char>) -> Seq<char> {
    if a.len() == 0 {
        b
    } else {
        a + seq!['.'] + b
    }
}

/// The full name `a.b`, or `b` alone when `a` is empty.
pub fn scoped_name(a: &String, b: &String) -> (r: String)
    ensures
        r@ == scoped(a@, b@),
{
    let mut s = a.clone();
    if a.as_str().unicode_len() > 0 {
        push_char(&mut s, '.');
    }
    s.append(b.as_str());
    s
}

/// The state of the walk over the declarations: the full paths of the open scopes, the
/// variables so far, the timescale, where `$enddefinitions` stood, and whether the
/// declarations are malformed.
pub type Walk = (Seq<Seq<char>>, Seq<DeclView>, Option<(u32, u64)>, Option<nat>, bool);

/// The full path of the innermost open scope, empty at the top.
pub open spec fn current_path(stack: Seq<Seq<char>>) -> Seq<char> {
    if stack.len() == 0 {
        Seq::empty()
    } else {
        stack.last()
    }
}

/// One declaration command, the `i`th, applied to the walk.
pub open spec fn walk_step(w: Walk, c: CommandView, i: nat) -> Walk {
    let (stack, decls, ts, end, bad) = w;
    match c {
        CommandView::Timescale(n, d) => (stack, decls, Some((n, d)), end, bad),
        CommandView::Scope(id) => (stack.push(scoped(current_path(stack), id)), decls, ts, end, bad),
        CommandView::Upscope => if stack.len() == 0 {
            (stack, decls, ts, end, true)
        } else {
            (stack.drop_last(), decls, ts, end, bad)
        },
        CommandView::Var(t, size, code, name) => (
            stack,
            decls.push((var_kind_of(t), size, code, current_path(stack) + seq!['.'] + name)),
            ts,
            end,
            bad,
        ),
        CommandView::EndDefinitions => if stack.len() == 0 {
            (stack, decls, ts, Some(i), bad)
        } else {
            (stack, decls, ts, end, true)
        },
        CommandView::Timestamp(_) => (stack, decls, ts, end, true),
        CommandView::Change(_, _) => (stack, decls, ts, end, true),
        CommandView::Other => w,
    }
}

/// The walk over the commands' declarations, with an explicit stack of open scopes; it stops
/// at `$enddefinitions` or at the first malformed command. Each variable is named by the path
/// of its scope and its own name, joined by a dot.
pub open spec fn walk(cmds: Seq<CommandView>) -> Walk
    decreases cmds.len(),
{
    if cmds.len() == 0 {
        (Seq::empty(), Seq::empty(), None, None, false)
    } else {
        let w = walk(cmds.drop_last());
        if w.3 is Some || w.4 {
            w
        } else {
            walk_step(w, cmds.last(), (cmds.len() - 1) as nat)
        }
    }
}

/// Once the walk has stopped, later commands change nothing.
proof fn lemma_walk_stops(cmds: Seq<CommandView>, i: int)
    requires
        0 <= i <= cmds.len(),
        walk(cmds.take(i)).3 is Some || walk(cmds.take(i)).4,
    ensures
        walk(cmds) == walk(cmds.take(i)),
    decreases cmds.len(),
{
    if cmds.len() == i {
        assert(cmds.take(i) =~= cmds);
    } else {
        assert(cmds.drop_last().take(i) =~= cmds.take(i));
        lemma_walk_stops(cmds.drop_last(), i);
    }
}

/// The views of a stack of paths.
pub open spec fn texts(s: Seq<String>) -> Seq<Seq<char>> {
    s.map_values(|x: String| x@)
}

/// The declarations of a dump (see `walk`): the variables, the timescale and where
/// `$enddefinitions` stands; an error when they are malformed.
pub fn declarations(cmds: &Vec<DumpCommand>) -> (r: Result<(Vec<VarDecl>, Option<(u32, u64)>, usize), ImportError>)
    requires
        forall|i: int|
            0 <= i < cmds@.len() ==> ((#[trigger] cmds@[i]) matches DumpCommand::Timescale(_, d) ==> d >= 1),
    ensures
        match r {
            Ok((ds, ts, end)) => {
                let w = walk(command_views(cmds@));
                &&& w.3 == Some(end as nat)
                &&& end < cmds@.len()
                &&& !w.4
                &&& decl_views(ds@) == w.1
                &&& ts == w.2
                &&& (ts matches Some((_, d)) ==> d >= 1)
            },
            Err(e) => e == ImportError::Header && (walk(command_views(cmds@)).4 || walk(
                command_views(cmds@),
            ).3 is None),
        },
{
    let ghost cv = command_views(cmds@);
    let mut stack: Vec<String> = Vec::new();
    let mut decls: Vec<VarDecl> = Vec::new();
    let mut ts: Option<(u32, u64)> = None;
    let mut i: usize = 0;
    proof {
        assert(cv.take(0) =~= Seq::<CommandView>::empty());
        assert(texts(stack@) =~= Seq::<Seq<char>>::empty());
        assert(decl_views(decls@) =~= Seq::<DeclView>::empty());
    }
    while i < cmds.len()
        invariant
            cv == command_views(cmds@),
            i <= cmds@.len(),
            forall|j: int|
                0 <= j < cmds@.len() ==> ((#[trigger] cmds@[j]) matches DumpCommand::Timescale(_, d) ==> d >= 1),
            walk(cv.take(i as int)) == (texts(stack@), decl_views(decls@), ts, None::<nat>, false),
            ts matches Some((_, d)) ==> d >= 1,
        decreases cmds@.len() - i,
    {
        let ghost w0 = walk(cv.take(i as int));
        proof {
            assert(cv.take(i as int + 1).drop_last() =~= cv.take(i as int));
            assert(cv.take(i as int + 1).last() == cmds@[i as int]@);
        }
        let top = if stack.len() == 0 {
            String::new()
        } else {
            stack[stack.len() - 1].clone()
        };
        assert(top@ == current_path(texts(stack@)));
        match &cmds[i] {
            DumpCommand::Timescale(n, d) => {
                ts = Some((*n, *d));
            },
            DumpCommand::Scope(id) => {
                let p = scoped_name(&top, id);
                stack.push(p);
                proof {
                    assert(texts(stack@) =~= w0.0.push(scoped(top@, id@)));
                }
            },
            DumpCommand::Upscope => {
                if stack.len() == 0 {
                    proof {
                        lemma_walk_stops(cv, i + 1);
                    }
                    return Err(ImportError::Header);
                }
                let _ = stack.pop();
                proof {
                    assert(texts(stack@) =~= w0.0.drop_last());
                }
            },
            DumpCommand::Var(t, size, code, reference) => {
                let mut name = top.clone();
                push_char(&mut name, '.');
                name.append(reference.as_str());
                let ghost before = decls@;
                let kind = kind_of_text(t);
                let code_copy = code.clone();
                proof {
                    assert(name@ == top@ + seq!['.'] + reference@);
                }
                decls.push(VarDecl { kind, size: *size, code: code_copy, name });
                proof {
                    let d = (var_kind_of(t@), *size, code@, current_path(w0.0) + seq!['.'] + reference@);
                    assert forall|k: int| 0 <= k < decls@.len() implies #[trigger] decl_views(decls@)[k]
                        == w0.1.push(d)[k] by {
                        if k < before.len() {
                            assert(decls@[k] == before[k]);
                            assert(decl_views(before)[k] == w0.1[k]);
                        }
                    }
                    assert(decl_views(decls@) =~= w0.1.push(d));
                }
            },
            DumpCommand::EndDefinitions => {
                proof {
                    lemma_walk_stops(cv, i + 1);
                }
                if stack.len() > 0 {
                    return Err(ImportError::Header);
                }
                return Ok((decls, ts, i));
            },
            DumpCommand::Timestamp(_) => {
                proof {
                    lemma_walk_stops(cv, i + 1);
                }
                return Err(ImportError::Header);
            },
            DumpCommand::Change(_, _) => {
                proof {
                    lemma_walk_stops(cv, i + 1);
                }
                return Err(ImportError::Header);
            },
            DumpCommand::Other => {},
        }
        i = i + 1;
    }
    proof {
        assert(cv.take(cmds@.len() as int) =~= cv);
    }
    Err(ImportError::Header)
}

/// Imports a value change dump read from its bytes: fails when a command does not parse or
/// the declarations are malformed (see `walk`); otherwise gives one register wave per
/// integer, parameter, real, register or wire declaration of 1 to 512 bits, replayed from
/// the body records under the timescale (one second when there is none), with unknown and
/// high-impedance bits read as chosen (see `imported`).
pub fn import_vcd(bytes: &[u8], unknown_bit: bool, high_z_bit: bool) -> (r: Result<Vec<Wave>, ImportError>)
    ensures
        match dump_commands(bytes@) {
            None => r == Err::<Vec<Wave>, ImportError>(ImportError::Unreadable),
            Some(cs) => {
                let w = walk(cs);
                match w.3 {
                    Some(end) => if w.4 {
                        r == Err::<Vec<Wave>, ImportError>(ImportError::Header)
                    } else {
                        r matches Ok(ws) && imported(
                            ws@,
                            w.1,
                            cs.skip(end as int + 1),
                            timescale_count(w.2),
                            timescale_unit(w.2),
                            unknown_bit,
                            high_z_bit,
                        )
                    },
                    None => r == Err::<Vec<Wave>, ImportError>(ImportError::Header),
                }
            },
        },
{
    let mut cmds = match read_commands(bytes) {
        Some(c) => c,
        None => {
            return Err(ImportError::Unreadable);
        },
    };
    let ghost cv = command_views(cmds@);
    let (decls, ts, end) = match declarations(&cmds) {
        Ok(d) => d,
        Err(e) => {
            return Err(e);
        },
    };
    let (count, unit) = match ts {
        Some((n, d)) => (n, d),
        None => (1u32, 1u64),
    };
    let total = cmds.len();
    assert(end < total);
    let body = cmds.split_off(end + 1);
    proof {
        assert(command_views(body@) =~= cv.skip(end as int + 1));
    }
    Ok(import_records(&decls, &body, count, unit, unknown_bit, high_z_bit))
}

/// The timescale's count, one when there is none.
pub open spec fn timescale_count(ts: Option<(u32, u64)>) -> u32 {
    match ts {
        Some((n, _)) => n,
        None => 1,
    }
}

/// The timescale unit's ticks per second, one when there is none.
pub open spec fn timescale_unit(ts: Option<(u32, u64)>) -> u64 {
    match ts {
        Some((_, d)) => d,
        None => 1,
    }
}

} // verus!
