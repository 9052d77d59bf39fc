//! One signal's timeline: samples, kind, display mode, selection, cached extrema and the
//! edit / type-change states.
use crate::parse::{parse_spec, Diagnostic};
use crate::numeral::{digit_count, numeral, pad_len, push_char, push_digits};
use crate::value::{chars_of, dec_text, resized, BitValue};
use crate::words::words_val;
use crate::wtype::{Clock, WaveType};
use vstd::prelude::*;

verus! {

/// How a decimal or analog display reads values.
#[derive(Clone, Copy, PartialEq, Eq, Structural, Debug)]
pub enum WaveSign {
    Unsigned,
    Signed,
}

impl WaveSign {
    pub fn signed(&self) -> (r: bool)
        ensures
            r == (*self == WaveSign::Signed),
    {
        match self {
            WaveSign::Unsigned => false,
            WaveSign::Signed => true,
        }
    }
}

/// How samples are shown and turned into numbers.
#[derive(Clone, Copy, PartialEq, Eq, Structural, Debug)]
pub enum WaveDisplay {
    Binary,
    Hex,
    Decimal(WaveSign),
    Analog(WaveSign),
}

impl WaveDisplay {
    /// Values are read signed.
    pub open spec fn is_signed(&self) -> bool {
        match self {
            WaveDisplay::Decimal(s) => *s == WaveSign::Signed,
            WaveDisplay::Analog(s) => *s == WaveSign::Signed,
            _ => false,
        }
    }

    pub fn signed(&self) -> (r: bool)
        ensures
            r == self.is_signed(),
    {
        match self {
            WaveDisplay::Binary => false,
            WaveDisplay::Hex => false,
            WaveDisplay::Decimal(s) => s.signed(),
            WaveDisplay::Analog(s) => s.signed(),
        }
    }
}

/// A pending edit of one sample (or of every selected sample).
pub struct StateEdit {
    pub index: usize,
    pub init_value: BitValue,
    pub tp: WaveType,
    pub display: WaveDisplay,
    pub current_value: Option<String>,
    pub error: Option<Vec<Diagnostic>>,
}

/// A pending change of the signal's kind.
#[derive(Clone, Copy, PartialEq, Eq, Structural, Debug)]
pub struct TypeChange {
    pub current_tp: WaveType,
    pub new_tp: WaveType,
    pub max_size: usize,
}

/// What the wave is doing.
pub enum WaveState {
    Show,
    Edit(StateEdit),
    TypeChange(TypeChange),
}

/// One signal's timeline.
pub struct Wave {
    state: WaveState,
    tp: WaveType,
    display: WaveDisplay,
    name: String,
    data: Vec<BitValue>,
    // A list rather than a hash set: a bulk edit walks it, and a walk over a list is what
    // verified code can follow.
    selected_data: Vec<usize>,
    extrema: Option<(BitValue, BitValue)>,
    deleted: bool,
}

/// A sample of a wave of kind `t` has the kind's width, or one bit.
pub open spec fn width_fits(v: BitValue, t: WaveType) -> bool {
    v.width() == t.width() || v.width() == 1
}

/// `lo` and `hi` bound the numbers of all samples, read signed or not.
pub open spec fn bounds_hold(samples: Seq<BitValue>, lo: BitValue, hi: BitValue, signed: bool) -> bool {
    forall|i: int|
        0 <= i < samples.len() ==> lo.num(signed) <= #[trigger] samples[i].num(signed)
            && samples[i].num(signed) <= hi.num(signed)
}

/// `lo` and `hi` are the smallest and largest numbers among the samples.
pub open spec fn bounds_tight(samples: Seq<BitValue>, lo: BitValue, hi: BitValue, signed: bool) -> bool {
    &&& bounds_hold(samples, lo, hi, signed)
    &&& exists|i: int| 0 <= i < samples.len() && samples[i].num(signed) == lo.num(signed)
    &&& exists|i: int| 0 <= i < samples.len() && samples[i].num(signed) == hi.num(signed)
}

/// The samples are what clock `c` generates: one bit each, high where the clock is high.
pub open spec fn clock_samples(c: Clock, s: Seq<BitValue>) -> bool {
    forall|i: int|
        0 <= i < s.len() ==> (#[trigger] s[i]).width() == 1 && s[i].magnitude() == if c.level(i) {
            1nat
        } else {
            0nat
        }
}

impl Wave {
    /// The samples, one per time step.
    pub closed spec fn samples(&self) -> Seq<BitValue> {
        self.data@
    }

    /// The signal's kind.
    pub closed spec fn kind(&self) -> WaveType {
        self.tp
    }

    /// The display mode.
    pub closed spec fn display_mode(&self) -> WaveDisplay {
        self.display
    }

    /// The name as entered.
    pub closed spec fn label(&self) -> Seq<char> {
        self.name@
    }

    /// The indices selected for bulk edits.
    pub closed spec fn selection(&self) -> Seq<usize> {
        self.selected_data@
    }

    /// The cached smallest and largest sample, if any.
    pub closed spec fn bounds(&self) -> Option<(BitValue, BitValue)> {
        self.extrema
    }

    /// The wave is marked for removal.
    pub closed spec fn is_deleted(&self) -> bool {
        self.deleted
    }

    /// What the wave is doing.
    pub closed spec fn state_view(&self) -> WaveState {
        self.state
    }

    /// Every sample is well formed and has the width of the signal's kind, or one bit (as the
/// samples that growing the timeline adds have).
    pub closed spec fn samples_ok(&self) -> bool {
        forall|i: int|
            0 <= i < self.data@.len() ==> (#[trigger] self.data@[i]).wf()
                && width_fits(self.data@[i], self.tp)
    }

    /// Selected indices point at samples.
    pub closed spec fn selection_ok(&self) -> bool {
        forall|i: int|
            0 <= i < self.selected_data@.len() ==> (#[trigger] self.selected_data@[i])
                < self.data@.len()
    }

    /// The extrema exist once there are samples and bound every sample.
    pub closed spec fn bounds_ok(&self) -> bool {
        (self.data@.len() > 0 ==> self.extrema is Some) && match self.extrema {
            Some((lo, hi)) => lo.wf() && hi.wf() && bounds_hold(
                self.data@,
                lo,
                hi,
                self.display.is_signed(),
            ),
            None => true,
        }
    }

    /// A pending edit points at a sample and holds a value of a sample's width.
    pub closed spec fn state_ok(&self) -> bool {
        match self.state {
            WaveState::Edit(e) => e.index < self.data@.len() && e.init_value.wf()
                && width_fits(e.init_value, self.tp) && e.tp == self.tp,
            _ => true,
        }
    }

    /// The wave's invariant.
    pub open spec fn wf(&self) -> bool {
        &&& self.kind().valid()
        &&& self.samples_ok()
        &&& self.selection_ok()
        &&& self.bounds_ok()
        &&& self.state_ok()
    }

    /// A wire of `size` zero samples named `name`.
    pub fn new(name: String, size: usize) -> (r: Self)
        ensures
            r.wf(),
            r.label() == name@,
            r.samples().len() == size,
            forall|i: int|
                0 <= i < size ==> (#[trigger] r.samples()[i]).magnitude() == 0 && r.samples()[i].width()
                    == 1 && !r.samples()[i].is_neg() && r.samples()[i].wf(),
            size == 0 ==> r.bounds() is None,
            size > 0 ==> (r.bounds() matches Some((lo, hi)) && lo == r.samples()[0] && hi
                == r.samples()[0]),
            r.kind() == WaveType::Wire,
            r.display_mode() == WaveDisplay::Binary,
            r.state_view() is Show,
            r.selection().len() == 0,
            !r.is_deleted(),
    {
        let zero = BitValue::new(1);
        let mut data: Vec<BitValue> = Vec::new();
        let mut i: usize = 0;
        while i < size
            invariant
                i <= size,
                data@.len() == i,
                zero.wf() && zero.width() == 1 && zero.magnitude() == 0 && !zero.is_neg(),
                forall|j: int| 0 <= j < i ==> #[trigger] data@[j] == zero,
            decreases size - i,
        {
            data.push(zero);
            i = i + 1;
        }
        let extrema = if size > 0 {
            Some((zero, zero))
        } else {
            None
        };
        Wave {
            state: WaveState::Show,
            tp: WaveType::Wire,
            display: WaveDisplay::Binary,
            name,
            data,
            selected_data: Vec::new(),
            extrema,
            deleted: false,
        }
    }

    /// Whether the wave is marked for removal.
    pub fn deleted(&self) -> (r: bool)
        ensures
            r == self.is_deleted(),
    {
        self.deleted
    }

    /// Marks the wave for removal at the next sweep.
    pub fn mark_deleted(&mut self)
        requires
            old(self).wf(),
        ensures
            final(self).wf(),
            final(self).is_deleted(),
            final(self).samples() == old(self).samples(),
            final(self).kind() == old(self).kind(),
            final(self).label() == old(self).label(),
    {
        self.deleted = true;
    }

    /// What the wave is doing, with the payload of a pending edit or type change.
    pub fn state(&self) -> (r: &WaveState)
        ensures
            *r == self.state_view(),
    {
        &self.state
    }

    /// The name as entered.
    pub fn raw_name(&self) -> (r: String)
        ensures
            r@ == self.label(),
    {
        self.name.clone()
    }

    /// Number of samples.
    pub fn len(&self) -> (r: usize)
        ensures
            r == self.samples().len(),
    {
        self.data.len()
    }

    /// The width of every sample.
    pub fn reg_size(&self) -> (r: usize)
        ensures
            r == self.kind().width(),
    {
        match self.tp {
            WaveType::Clock(_) => 1,
            WaveType::Wire => 1,
            WaveType::Reg(s) => s,
        }
    }

    /// The signal's kind.
    pub fn wave_type(&self) -> (r: WaveType)
        ensures
            r == self.kind(),
    {
        self.tp
    }

    /// The display mode.
    pub fn display_mode_of(&self) -> (r: WaveDisplay)
        ensures
            r == self.display_mode(),
    {
        self.display
    }

    /// Sample `i`.
    pub fn sample(&self, i: usize) -> (r: &BitValue)
        requires
            i < self.samples().len(),
        ensures
            *r == self.samples()[i as int],
    {
        &self.data[i]
    }

    /// The smallest and largest sample as last computed or widened, if any.
    pub fn min_max(&self) -> (r: Option<(BitValue, BitValue)>)
        ensures
            r == self.bounds(),
    {
        self.extrema
    }

    /// Recomputes the extrema from every sample under the display's sign reading.
    pub fn refresh_min_max(&mut self)
        requires
            old(self).kind().valid(),
            old(self).samples_ok(),
            old(self).selection_ok(),
            old(self).state_ok(),
        ensures
            final(self).wf(),
            final(self).samples() == old(self).samples(),
            final(self).kind() == old(self).kind(),
            final(self).display_mode() == old(self).display_mode(),
            final(self).label() == old(self).label(),
            final(self).selection() == old(self).selection(),
            final(self).is_deleted() == old(self).is_deleted(),
            final(self).state_view() == old(self).state_view(),
            old(self).samples().len() == 0 ==> final(self).bounds() is None,
            match final(self).bounds() {
                Some((lo, hi)) => bounds_tight(
                    final(self).samples(),
                    lo,
                    hi,
                    final(self).display_mode().is_signed(),
                ),
                None => final(self).samples().len() == 0,
            },
    {
        let signed = self.display.signed();
        let n = self.data.len();
        if n == 0 {
            self.extrema = None;
            return;
        }
        let mut lo = self.data[0];
        let mut hi = self.data[0];
        let mut i: usize = 1;
        while i < n
            invariant
                n == self.data@.len(),
                1 <= i <= n,
                signed == self.display.is_signed(),
                forall|j: int| 0 <= j < n ==> (#[trigger] self.data@[j]).wf(),
                lo.wf() && hi.wf(),
                bounds_hold(self.data@.take(i as int), lo, hi, signed),
                exists|j: int| 0 <= j < i && self.data@[j].num(signed) == lo.num(signed),
                exists|j: int| 0 <= j < i && self.data@[j].num(signed) == hi.num(signed),
            decreases n - i,
        {
            let v = self.data[i];
            if !lo.num_le(&v, signed) {
                lo = v;
            }
            if !v.num_le(&hi, signed) {
                hi = v;
            }
            proof {
                let t = self.data@.take(i as int + 1);
                assert forall|j: int| 0 <= j < t.len() implies lo.num(signed) <= #[trigger] t[j].num(signed)
                    && t[j].num(signed) <= hi.num(signed) by {
                    if j < i {
                        assert(t[j] == self.data@.take(i as int)[j]);
                    }
                }
            }
            i = i + 1;
        }
        proof {
            assert(self.data@.take(n as int) =~= self.data@);
        }
        self.extrema = Some((lo, hi));
    }

    /// Rewrites every sample from the clock `c`.
    fn regenerate(&mut self, c: Clock)
        requires
            c.period > 0,
        ensures
            final(self).data@.len() == old(self).data@.len(),
            clock_samples(c, final(self).data@),
            forall|i: int| 0 <= i < final(self).data@.len() ==> (#[trigger] final(self).data@[i]).wf(),
            final(self).tp == old(self).tp,
            final(self).display == old(self).display,
            final(self).name == old(self).name,
            final(self).selected_data == old(self).selected_data,
            final(self).extrema == old(self).extrema,
            final(self).deleted == old(self).deleted,
            final(self).state == old(self).state,
    {
        let n = self.data.len();
        let mut i: usize = 0;
        while i < n
            invariant
                c.period > 0,
                n == self.data@.len(),
                i <= n,
                forall|j: int| 0 <= j < i ==> (#[trigger] self.data@[j]).wf() && self.data@[j].width()
                    == 1 && self.data@[j].magnitude() == if c.level(j) {
                    1nat
                } else {
                    0nat
                },
                self.tp == old(self).tp,
                self.display == old(self).display,
                self.name == old(self).name,
                self.selected_data == old(self).selected_data,
                self.extrema == old(self).extrema,
                self.deleted == old(self).deleted,
                self.state == old(self).state,
            decreases n - i,
        {
            let high = c.level_at(i);
            let mut v = BitValue::new(1);
            v.set_bool(high);
            self.data[i] = v;
            i = i + 1;
        }
    }

    /// Keeps the selected indices below `n`.
    fn trim_selection(&mut self, n: usize)
        ensures
            forall|i: int|
                0 <= i < final(self).selected_data@.len() ==> (#[trigger] final(self).selected_data@[i]) < n,
            final(self).data == old(self).data,
            final(self).tp == old(self).tp,
            final(self).display == old(self).display,
            final(self).name == old(self).name,
            final(self).extrema == old(self).extrema,
            final(self).deleted == old(self).deleted,
            final(self).state == old(self).state,
    {
        let mut kept: Vec<usize> = Vec::new();
        let mut i: usize = 0;
        while i < self.selected_data.len()
            invariant
                i <= self.selected_data@.len(),
                forall|j: int| 0 <= j < kept@.len() ==> (#[trigger] kept@[j]) < n,
            decreases self.selected_data@.len() - i,
        {
            let x = self.selected_data[i];
            if x < n {
                kept.push(x);
            }
            i = i + 1;
        }
        self.selected_data = kept;
    }

    /// Sets the number of samples: truncates, or grows with 1-bit zero samples; a clock is regenerated over the new length and the extrema are recomputed.
    /// Selected indices and a pending edit that fall outside are dropped.
    pub fn set_len(&mut self, len: usize)
        requires
            old(self).wf(),
        ensures
            final(self).wf(),
            relengthened(*old(self), *final(self), len as nat),
    {
        if self.data.len() < len {
            let zero = BitValue::new(1);
            while self.data.len() < len
                invariant
                    zero.wf() && zero.width() == 1 && zero.magnitude() == 0 && !zero.is_neg(),
                    old(self).data@.len() <= self.data@.len() <= len,
                    forall|i: int| 0 <= i < old(self).data@.len() ==> #[trigger] self.data@[i] == old(self).data@[i],
                    forall|i: int| old(self).data@.len() <= i < self.data@.len() ==> #[trigger] self.data@[i] == zero,
                    self.tp == old(self).tp,
                    self.display == old(self).display,
                    self.name == old(self).name,
                    self.selected_data == old(self).selected_data,
                    self.extrema == old(self).extrema,
                    self.deleted == old(self).deleted,
                    self.state == old(self).state,
                decreases len - self.data@.len(),
            {
                self.data.push(zero);
            }
        } else {
            self.data.truncate(len);
        }
        let ghost resized = self.data@;
        self.trim_selection(len);
        let drop_edit = match &self.state {
            WaveState::Edit(e) => e.index >= len,
            _ => false,
        };
        if drop_edit {
            self.state = WaveState::Show;
        }
        if let WaveType::Clock(c) = self.tp {
            self.regenerate(c);
        }
        self.extrema = None;
        proof {
            assert forall|i: int| 0 <= i < self.data@.len() implies (#[trigger] self.data@[i]).wf()
                && width_fits(self.data@[i], self.tp) by {
                match self.tp {
                    WaveType::Clock(c) => {},
                    _ => {
                        assert(self.data@[i] == resized[i]);
                        if i < old(self).data@.len() {
                            assert(old(self).data@[i].wf());
                        }
                    },
                }
            }
        }
        self.refresh_min_max();
    }

    /// Grows to `new_len` samples by repeating the last one (a zero of the signal's width
    /// when there is none); does nothing when `new_len` is not above the length.
    pub fn extend_by_last(&mut self, new_len: usize)
        requires
            old(self).wf(),
        ensures
            final(self).wf(),
            new_len <= old(self).samples().len() ==> final(self).samples() == old(self).samples(),
            new_len > old(self).samples().len() ==> {
                &&& final(self).samples().len() == new_len
                &&& forall|i: int| 0 <= i < old(self).samples().len() ==> #[trigger] final(self).samples()[i] == old(self).samples()[i]
                &&& forall|i: int| old(self).samples().len() <= i < new_len ==> if old(self).samples().len() > 0 {
                    #[trigger] final(self).samples()[i] == old(self).samples().last()
                } else {
                    final(self).samples()[i].magnitude() == 0 && !final(self).samples()[i].is_neg()
                        && final(self).samples()[i].width() == old(self).kind().width()
                }
            },
            old(self).samples().len() > 0 || new_len <= old(self).samples().len() ==> final(self).bounds()
                == old(self).bounds(),
            old(self).samples().len() == 0 && new_len > 0 ==> (final(self).bounds() matches Some((lo, hi))
                && lo == final(self).samples()[0] && hi == final(self).samples()[0]),
            final(self).kind() == old(self).kind(),
            final(self).display_mode() == old(self).display_mode(),
            final(self).label() == old(self).label(),
            final(self).is_deleted() == old(self).is_deleted(),
            final(self).selection() == old(self).selection(),
    {
        let n = self.data.len();
        if new_len <= n {
            return;
        }
        let last = if n > 0 {
            self.data[n - 1]
        } else {
            BitValue::new(self.reg_size())
        };
        if n == 0 {
            self.extrema = Some((last, last));
        }
        let ghost bounds = self.extrema;
        while self.data.len() < new_len
            invariant
                n == old(self).data@.len(),
                n < new_len,
                n <= self.data@.len() <= new_len,
                last.wf() && width_fits(last, self.tp),
                n > 0 ==> last == old(self).data@[n - 1],
                n == 0 ==> last.magnitude() == 0 && !last.is_neg() && last.width() == self.tp.width(),
                forall|i: int| 0 <= i < n ==> #[trigger] self.data@[i] == old(self).data@[i],
                forall|i: int| n <= i < self.data@.len() ==> #[trigger] self.data@[i] == last,
                self.tp == old(self).tp,
                self.display == old(self).display,
                self.name == old(self).name,
                self.selected_data == old(self).selected_data,
                self.deleted == old(self).deleted,
                self.state == old(self).state,
                self.extrema == bounds,
                bounds is Some,
                match bounds {
                    Some((lo, hi)) => lo.wf() && hi.wf() && bounds_hold(
                        self.data@,
                        lo,
                        hi,
                        self.display.is_signed(),
                    ) && lo.num(self.display.is_signed()) <= last.num(self.display.is_signed())
                        && last.num(self.display.is_signed()) <= hi.num(self.display.is_signed()),
                    None => false,
                },
                forall|i: int| 0 <= i < n ==> (#[trigger] old(self).data@[i]).wf()
                    && width_fits(old(self).data@[i], old(self).tp),
            decreases new_len - self.data@.len(),
        {
            self.data.push(last);
        }
    }

    /// Overwrites the last sample, widening the extrema to take it in; does nothing when
    /// there are no samples.
    pub fn set_last_value(&mut self, new_value: BitValue)
        requires
            old(self).wf(),
            new_value.wf(),
            new_value.width() == old(self).kind().width(),
        ensures
            final(self).wf(),
            old(self).samples().len() == 0 ==> final(self).samples() == old(self).samples(),
            old(self).samples().len() > 0 ==> final(self).samples() == old(self).samples().update(
                old(self).samples().len() - 1,
                new_value,
            ),
            final(self).kind() == old(self).kind(),
            final(self).display_mode() == old(self).display_mode(),
            final(self).label() == old(self).label(),
            final(self).is_deleted() == old(self).is_deleted(),
            final(self).selection() == old(self).selection(),
            old(self).samples().len() == 0 ==> final(self).bounds() == old(self).bounds(),
            old(self).samples().len() > 0 ==> (old(self).bounds() matches Some((lo, hi))
                && final(self).bounds() == Some(
                (
                    lower_of(lo, new_value, old(self).display_mode().is_signed()),
                    upper_of(hi, new_value, old(self).display_mode().is_signed()),
                ),
            )),
    {
        let n = self.data.len();
        if n == 0 {
            return;
        }
        proof {
            assert(self.bounds_ok());
        }
        self.data[n - 1] = new_value;
        proof {
            let sg = self.display.is_signed();
            assert(old(self).bounds_ok());
            assert forall|i: int| 0 <= i < self.data@.len() implies (#[trigger] self.data@[i]).wf()
                && width_fits(self.data@[i], self.tp) by {
                if i != n - 1 {
                    assert(self.data@[i] == old(self).data@[i]);
                    assert(old(self).samples_ok());
                }
            }
            if let Some((lo, hi)) = self.extrema {
                assert forall|i: int| 0 <= i < self.data@.len() implies (lo.num(sg) <= #[trigger] self.data@[i].num(sg)
                    || self.data@[i] == new_value) && (self.data@[i].num(sg) <= hi.num(sg)
                    || self.data@[i] == new_value) by {
                    if i != n - 1 {
                        assert(self.data@[i] == old(self).data@[i]);
                    }
                }
            }
        }
        self.widen(new_value);
    }

    /// Widens the extrema to take in `v`, which every sample's number lies within or equals.
    fn widen(&mut self, v: BitValue)
        requires
            v.wf(),
            old(self).data@.len() > 0,
            old(self).extrema matches Some((lo, hi)) && lo.wf() && hi.wf() && forall|i: int|
                0 <= i < old(self).data@.len() ==> (lo.num(old(self).display.is_signed())
                    <= #[trigger] old(self).data@[i].num(old(self).display.is_signed())
                    || old(self).data@[i] == v) && (old(self).data@[i].num(
                    old(self).display.is_signed(),
                ) <= hi.num(old(self).display.is_signed()) || old(self).data@[i] == v),
        ensures
            final(self).data == old(self).data,
            final(self).tp == old(self).tp,
            final(self).display == old(self).display,
            final(self).name == old(self).name,
            final(self).selected_data == old(self).selected_data,
            final(self).deleted == old(self).deleted,
            final(self).state == old(self).state,
            final(self).extrema matches Some((lo, hi)) && lo.wf() && hi.wf() && bounds_hold(
                final(self).data@,
                lo,
                hi,
                final(self).display.is_signed(),
            ),
            old(self).extrema matches Some((lo, hi)) && final(self).extrema == Some(
                (
                    lower_of(lo, v, old(self).display.is_signed()),
                    upper_of(hi, v, old(self).display.is_signed()),
                ),
            ),
    {
        let signed = self.display.signed();
        if let Some((lo, hi)) = self.extrema {
            let nlo = if v.num_le(&lo, signed) {
                v
            } else {
                lo
            };
            let nhi = if hi.num_le(&v, signed) {
                v
            } else {
                hi
            };
            self.extrema = Some((nlo, nhi));
        }
    }

    /// Gives every sample `w` bits, dropping higher bits.
    fn resize_all(&mut self, w: usize)
        requires
            1 <= w <= 512,
            forall|i: int| 0 <= i < old(self).data@.len() ==> (#[trigger] old(self).data@[i]).wf(),
        ensures
            final(self).data@.len() == old(self).data@.len(),
            forall|i: int|
                0 <= i < final(self).data@.len() ==> (#[trigger] final(self).data@[i]).wf()
                    && final(self).data@[i].width() == w && final(self).data@[i].magnitude()
                    == resized(old(self).data@[i].magnitude(), w as nat)
                    && final(self).data@[i].is_neg() == old(self).data@[i].is_neg(),
            final(self).tp == old(self).tp,
            final(self).display == old(self).display,
            final(self).name == old(self).name,
            final(self).selected_data == old(self).selected_data,
            final(self).extrema == old(self).extrema,
            final(self).deleted == old(self).deleted,
            final(self).state == old(self).state,
    {
        let n = self.data.len();
        let mut i: usize = 0;
        while i < n
            invariant
                1 <= w <= 512,
                n == self.data@.len(),
                n == old(self).data@.len(),
                i <= n,
                forall|j: int| 0 <= j < i ==> (#[trigger] self.data@[j]).wf() && self.data@[j].width()
                    == w && self.data@[j].magnitude() == resized(old(self).data@[j].magnitude(), w as nat)
                    && self.data@[j].is_neg() == old(self).data@[j].is_neg(),
                forall|j: int| i <= j < n ==> #[trigger] self.data@[j] == old(self).data@[j],
                forall|j: int| 0 <= j < n ==> (#[trigger] old(self).data@[j]).wf(),
                self.tp == old(self).tp,
                self.display == old(self).display,
                self.name == old(self).name,
                self.selected_data == old(self).selected_data,
                self.extrema == old(self).extrema,
                self.deleted == old(self).deleted,
                self.state == old(self).state,
            decreases n - i,
        {
            let mut v = self.data[i];
            let _ = v.set_size(w);
            self.data[i] = v;
            i = i + 1;
        }
    }

    /// Changes the signal's kind. A clock regenerates every sample, shows in binary and has
    /// extrema 0 and 1; a wire gives every sample one bit and shows in binary; a register
    /// gives every sample its width and shows in hexadecimal. The extrema of a wire or
    /// register are recomputed. A pending sample edit is dropped.
    pub fn set_type(&mut self, new_type: WaveType)
        requires
            old(self).wf(),
            new_type.valid(),
        ensures
            final(self).wf(),
            final(self).state_view() == if old(self).state_view() is Edit {
                WaveState::Show
            } else {
                old(self).state_view()
            },
            retyped(*old(self), *final(self), new_type),
    {
        let editing = match &self.state {
            WaveState::Edit(_) => true,
            _ => false,
        };
        if editing {
            self.state = WaveState::Show;
        }
        proof {
            assert(old(self).samples_ok());
        }
        match new_type {
            WaveType::Clock(c) => {
                self.tp = WaveType::Clock(c);
                self.regenerate(c);
                let lo = BitValue::new(1);
                let mut hi = BitValue::new(1);
                hi.set_bool(true);
                self.extrema = Some((lo, hi));
                self.display = WaveDisplay::Binary;
                proof {
                    assert forall|i: int| 0 <= i < self.data@.len() implies lo.num(false)
                        <= #[trigger] self.data@[i].num(false) && self.data@[i].num(false)
                        <= hi.num(false) by {}
                }
            },
            WaveType::Wire => {
                self.resize_all(1);
                self.tp = WaveType::Wire;
                self.display = WaveDisplay::Binary;
                self.refresh_min_max();
            },
            WaveType::Reg(r) => {
                self.resize_all(r);
                self.tp = WaveType::Reg(r);
                self.display = WaveDisplay::Hex;
                self.refresh_min_max();
            },
        }
        proof {
            assert(self.samples_ok());
        }
    }

    /// Shows the samples another way; the extrema are recomputed for the new sign reading.
    pub fn set_display(&mut self, display: WaveDisplay)
        requires
            old(self).wf(),
        ensures
            final(self).wf(),
            final(self).display_mode() == display,
            final(self).samples() == old(self).samples(),
            final(self).kind() == old(self).kind(),
            final(self).label() == old(self).label(),
            final(self).is_deleted() == old(self).is_deleted(),
            match final(self).bounds() {
                Some((lo, hi)) => bounds_tight(final(self).samples(), lo, hi, display.is_signed()),
                None => final(self).samples().len() == 0,
            },
    {
        self.display = display;
        self.refresh_min_max();
    }

    /// The storage declaration of the signal in exported stimulus: `wire` for a wire or a
    /// clock, `reg [W:0]` for a register of W bits.
    pub fn export_type(&self) -> (r: String)
        ensures
            r@ == export_text(self.kind()),
    {
        let mut s = String::new();
        match self.tp {
            WaveType::Reg(w) => {
                push_char(&mut s, 'r');
                push_char(&mut s, 'e');
                push_char(&mut s, 'g');
                push_char(&mut s, ' ');
                push_char(&mut s, '[');
                push_decimal(&mut s, w as u64);
                push_char(&mut s, ':');
                push_char(&mut s, '0');
                push_char(&mut s, ']');
                proof {
                    assert(s@ =~= export_text(self.kind()));
                }
            },
            _ => {
                push_char(&mut s, 'w');
                push_char(&mut s, 'i');
                push_char(&mut s, 'r');
                push_char(&mut s, 'e');
                proof {
                    assert(s@ =~= export_text(self.kind()));
                }
            },
        }
        s
    }

    /// The name as an identifier: every space becomes an underscore.
    pub fn name(&self) -> (r: String)
        ensures
            r@ == underscored(self.label()),
    {
        let chars = chars_of(self.name.as_str());
        let mut s = String::new();
        let mut i: usize = 0;
        while i < chars.len()
            invariant
                chars@ == self.name@,
                i <= chars@.len(),
                s@ == underscored(chars@.take(i as int)),
            decreases chars@.len() - i,
        {
            let c = chars[i];
            push_char(&mut s, if c == ' ' {
                '_'
            } else {
                c
            });
            proof {
                assert(underscored(chars@.take(i as int + 1)) =~= underscored(chars@.take(i as int)).push(
                    if c == ' ' {
                        '_'
                    } else {
                        c
                    },
                ));
            }
            i = i + 1;
        }
        proof {
            assert(chars@.take(chars@.len() as int) =~= chars@);
        }
        s
    }

    /// The samples in binary, one per line, each line ended by a newline: the content of a
    /// memory file for the signal.
    pub fn memb_text(&self) -> (r: String)
        requires
            self.wf(),
        ensures
            r@ == memb_lines(self.samples()),
    {
        let mut s = String::new();
        let mut i: usize = 0;
        proof {
            assert(self.samples_ok());
            assert(self.data@.take(0) =~= Seq::<BitValue>::empty());
        }
        while i < self.data.len()
            invariant
                i <= self.data@.len(),
                forall|j: int| 0 <= j < self.data@.len() ==> (#[trigger] self.data@[j]).wf(),
                s@ == memb_lines(self.data@.take(i as int)),
            decreases self.data@.len() - i,
        {
            let line = self.data[i].to_bin();
            s.append(line.as_str());
            push_char(&mut s, '\n');
            proof {
                let t = self.data@.take(i as int + 1);
                assert(t.drop_last() =~= self.data@.take(i as int));
                assert(s@ =~= memb_lines(t));
            }
            i = i + 1;
        }
        proof {
            assert(self.data@.take(self.data@.len() as int) =~= self.data@);
        }
        s
    }

    /// Starts editing sample `index`, keeping its current value, the signal's kind and the
    /// display mode. Refused (nothing changes) unless the wave is showing, the index is a
    /// sample, and the signal is no clock: a clock changes only through its kind.
    pub fn begin_edit(&mut self, index: usize) -> (r: bool)
        requires
            old(self).wf(),
        ensures
            final(self).wf(),
            r == (old(self).state_view() is Show && index < old(self).samples().len() && !(old(
                self,
            ).kind() is Clock)),
            r ==> (final(self).state_view() matches WaveState::Edit(e) && e.index == index
                && e.init_value == old(self).samples()[index as int] && e.tp == old(self).kind()
                && e.display == old(self).display_mode() && e.current_value is None
                && e.error is None),
            !r ==> final(self).state_view() == old(self).state_view(),
            final(self).samples() == old(self).samples(),
            final(self).kind() == old(self).kind(),
            final(self).display_mode() == old(self).display_mode(),
            final(self).selection() == old(self).selection(),
            final(self).bounds() == old(self).bounds(),
    {
        let showing = match &self.state {
            WaveState::Show => true,
            _ => false,
        };
        let clock = match self.tp {
            WaveType::Clock(_) => true,
            _ => false,
        };
        if !showing || index >= self.data.len() || clock {
            return false;
        }
        proof {
            assert(self.samples_ok());
        }
        self.state = WaveState::Edit(
            StateEdit {
                index,
                init_value: self.data[index],
                tp: self.tp,
                display: self.display,
                current_value: None,
                error: None,
            },
        );
        true
    }

    /// While editing, fills the editor text from the pending value in the display's base, if
    /// it holds none yet.
    pub fn edit_prefill(&mut self)
        requires
            old(self).wf(),
        ensures
            final(self).wf(),
            final(self).samples() == old(self).samples(),
            final(self).kind() == old(self).kind(),
            final(self).selection() == old(self).selection(),
            match old(self).state_view() {
                WaveState::Edit(e0) => final(self).state_view() matches WaveState::Edit(e) && {
                    &&& e.index == e0.index
                    &&& e.init_value == e0.init_value
                    &&& e.error == e0.error
                    &&& (e0.current_value is Some ==> e.current_value == e0.current_value)
                    &&& (e0.current_value is None ==> (e.current_value matches Some(t) && t@
                        == shown_text(e0.init_value, e0.display)))
                },
                _ => final(self).state_view() == old(self).state_view(),
            },
    {
        proof {
            assert(self.state_ok());
        }
        if let WaveState::Edit(e) = &mut self.state {
            if e.current_value.is_none() {
                let text = match e.display {
                    WaveDisplay::Binary => e.init_value.to_bin(),
                    WaveDisplay::Hex => e.init_value.to_hex(),
                    WaveDisplay::Decimal(sg) => e.init_value.to_dec(sg.signed()),
                    WaveDisplay::Analog(sg) => e.init_value.to_dec(sg.signed()),
                };
                e.current_value = Some(text);
            }
        }
    }

    /// While editing, takes `text` as the editor's text and reads it into the pending value:
    /// on success the value is replaced and the error cleared, else the value stays and the
    /// findings are kept as the error.
    pub fn edit_input(&mut self, text: String)
        requires
            old(self).wf(),
            old(self).state_view() is Edit,
        ensures
            final(self).wf(),
            final(self).samples() == old(self).samples(),
            final(self).kind() == old(self).kind(),
            final(self).selection() == old(self).selection(),
            old(self).state_view() matches WaveState::Edit(e0) && final(self).state_view() matches WaveState::Edit(e) && {
                &&& e.index == e0.index
                &&& e.current_value == Some(text)
                &&& match parse_spec(text@, e0.init_value.width()) {
                    Ok((neg, m)) => e.init_value.magnitude() == m && e.init_value.is_neg() == neg
                        && e.init_value.width() == e0.init_value.width() && e.error is None,
                    Err(d) => e.init_value == e0.init_value && (e.error matches Some(v) && v@ == d),
                }
            },
    {
        proof {
            assert(self.state_ok());
        }
        if let WaveState::Edit(e) = &mut self.state {
            let res = e.init_value.parse_from(text.as_str());
            match res {
                Ok(()) => {
                    e.error = None;
                },
                Err(d) => {
                    e.error = Some(d);
                },
            }
            e.current_value = Some(text);
        }
    }

    /// While editing a wire, flips the pending bit.
    pub fn edit_toggle(&mut self)
        requires
            old(self).wf(),
            old(self).state_view() is Edit,
        ensures
            final(self).wf(),
            final(self).samples() == old(self).samples(),
            final(self).kind() == old(self).kind(),
            final(self).selection() == old(self).selection(),
            old(self).state_view() matches WaveState::Edit(e0) && final(self).state_view() matches WaveState::Edit(e) && e.index == e0.index
                && e.init_value.magnitude() == e0.init_value.magnitude() - e0.init_value.magnitude() % 2
                + (1 - e0.init_value.magnitude() % 2),
    {
        proof {
            assert(self.state_ok());
        }
        if let WaveState::Edit(e) = &mut self.state {
            e.init_value.neg_bool();
        }
    }

    /// Saves the pending edit: the value goes to every selected sample, or to the edited
    /// sample when none is selected; the extrema widen to take it in; the wave shows again.
    /// Does nothing unless editing.
    pub fn commit_edit(&mut self)
        requires
            old(self).wf(),
        ensures
            final(self).wf(),
            final(self).kind() == old(self).kind(),
            final(self).display_mode() == old(self).display_mode(),
            final(self).selection() == old(self).selection(),
            final(self).samples().len() == old(self).samples().len(),
            match old(self).state_view() {
                WaveState::Edit(e) => {
                    &&& final(self).state_view() is Show
                    &&& old(self).bounds() matches Some((lo, hi)) && final(self).bounds() == Some(
                        (
                            lower_of(lo, e.init_value, old(self).display_mode().is_signed()),
                            upper_of(hi, e.init_value, old(self).display_mode().is_signed()),
                        ),
                    )
                    &&& forall|i: int|
                        0 <= i < old(self).samples().len() ==> #[trigger] final(self).samples()[i]
                            == if (old(self).selection().len() > 0 && picked(old(self).selection(), old(self).selection().len() as int, i))
                            || (old(self).selection().len() == 0 && i == e.index) {
                            e.init_value
                        } else {
                            old(self).samples()[i]
                        }
                },
                _ => final(self).samples() == old(self).samples() && final(self).state_view()
                    == old(self).state_view(),
            },
    {
        proof {
            assert(self.state_ok());
            assert(self.samples_ok());
            assert(self.selection_ok());
            assert(self.bounds_ok());
        }
        let (index, v) = match &self.state {
            WaveState::Edit(e) => (e.index, e.init_value),
            _ => {
                return;
            },
        };
        let ghost sel = self.selected_data@;
        let n = self.selected_data.len();
        if n > 0 {
            let mut j: usize = 0;
            while j < n
                invariant
                    n == self.selected_data@.len(),
                    sel == self.selected_data@,
                    j <= n,
                    self.data@.len() == old(self).data@.len(),
                    old(self).wf(),
                    old(self).samples_ok(),
                    old(self).bounds_ok(),
                    self.tp == old(self).tp,
                    self.extrema == old(self).extrema,
                    self.display == old(self).display,
                    self.state == old(self).state,
                    v.wf() && width_fits(v, self.tp),
                    forall|k: int| 0 <= k < n ==> (#[trigger] sel[k]) < self.data@.len(),
                    forall|i: int|
                        0 <= i < self.data@.len() ==> #[trigger] self.data@[i] == if picked(sel, j as int, i) {
                            v
                        } else {
                            old(self).data@[i]
                        },
                decreases n - j,
            {
                let k = self.selected_data[j];
                self.data[k] = v;
                proof {
                    assert forall|i: int| 0 <= i < self.data@.len() implies #[trigger] self.data@[i]
                        == if picked(sel, j as int + 1, i) {
                        v
                    } else {
                        old(self).data@[i]
                    } by {
                        if i == k as int {
                            assert(sel[j as int] as int == i);
                        } else if picked(sel, j as int + 1, i) {
                            let w = choose|w: int| 0 <= w < j + 1 && sel[w] as int == i;
                            assert(w != j);
                        }
                    }
                }
                j = j + 1;
            }
        } else {
            self.data[index] = v;
        }
        self.state = WaveState::Show;
        proof {
            let sg = self.display.is_signed();
            assert forall|i: int| 0 <= i < self.data@.len() implies (#[trigger] self.data@[i]).wf()
                && width_fits(self.data@[i], self.tp) by {
                if self.data@[i] != v {
                    assert(self.data@[i] == old(self).data@[i]);
                }
            }
            if let Some((lo, hi)) = self.extrema {
                assert(bounds_hold(old(self).data@, lo, hi, sg));
                assert forall|i: int| 0 <= i < self.data@.len() implies (lo.num(sg) <= #[trigger] self.data@[i].num(sg)
                    || self.data@[i] == v) && (self.data@[i].num(sg) <= hi.num(sg)
                    || self.data@[i] == v) by {
                    if self.data@[i] != v {
                        assert(self.data@[i] == old(self).data@[i]);
                    }
                }
            }
        }
        self.widen(v);
    }

    /// Drops the pending edit or type change; the wave shows again.
    pub fn cancel(&mut self)
        requires
            old(self).wf(),
        ensures
            final(self).wf(),
            final(self).state_view() is Show,
            final(self).samples() == old(self).samples(),
            final(self).kind() == old(self).kind(),
            final(self).display_mode() == old(self).display_mode(),
            final(self).selection() == old(self).selection(),
            final(self).bounds() == old(self).bounds(),
    {
        self.state = WaveState::Show;
    }

    /// Starts changing the kind to a clock: the proposal is the current clock, or a default
    /// clock for another kind; the period is bounded by the number of samples. Refused unless
    /// the wave is showing.
    pub fn begin_clock_change(&mut self) -> (r: bool)
        requires
            old(self).wf(),
        ensures
            final(self).wf(),
            r == old(self).state_view() is Show,
            r ==> final(self).state_view() == WaveState::TypeChange(
                TypeChange {
                    current_tp: old(self).kind(),
                    new_tp: if old(self).kind() is Clock {
                        old(self).kind()
                    } else {
                        WaveType::Clock(Clock { period: 2, duty: 1, phase: 0 })
                    },
                    max_size: old(self).samples().len() as usize,
                },
            ),
            !r ==> final(self).state_view() == old(self).state_view(),
            final(self).samples() == old(self).samples(),
            final(self).kind() == old(self).kind(),
            final(self).selection() == old(self).selection(),
    {
        let showing = match &self.state {
            WaveState::Show => true,
            _ => false,
        };
        if !showing {
            return false;
        }
        let new_tp = match self.tp {
            WaveType::Clock(_) => self.tp,
            _ => WaveType::Clock(Clock::new()),
        };
        self.state = WaveState::TypeChange(
            TypeChange { current_tp: self.tp, new_tp, max_size: self.data.len() },
        );
        true
    }

    /// Starts changing the kind to a register, proposing one bit. Refused unless the wave is
    /// showing.
    pub fn begin_reg_change(&mut self) -> (r: bool)
        requires
            old(self).wf(),
        ensures
            final(self).wf(),
            r == old(self).state_view() is Show,
            r ==> final(self).state_view() == WaveState::TypeChange(
                TypeChange {
                    current_tp: old(self).kind(),
                    new_tp: WaveType::Reg(1),
                    max_size: old(self).samples().len() as usize,
                },
            ),
            !r ==> final(self).state_view() == old(self).state_view(),
            final(self).samples() == old(self).samples(),
            final(self).kind() == old(self).kind(),
            final(self).selection() == old(self).selection(),
    {
        let showing = match &self.state {
            WaveState::Show => true,
            _ => false,
        };
        if !showing {
            return false;
        }
        self.state = WaveState::TypeChange(
            TypeChange { current_tp: self.tp, new_tp: WaveType::Reg(1), max_size: self.data.len() },
        );
        true
    }

    /// While changing the kind, replaces the proposed kind.
    pub fn propose_type(&mut self, t: WaveType)
        requires
            old(self).wf(),
        ensures
            final(self).wf(),
            old(self).state_view() matches WaveState::TypeChange(tc) ==> final(self).state_view()
                == WaveState::TypeChange(TypeChange { new_tp: t, ..tc }),
            !(old(self).state_view() is TypeChange) ==> final(self).state_view() == old(
                self,
            ).state_view(),
            final(self).samples() == old(self).samples(),
            final(self).kind() == old(self).kind(),
    {
        if let WaveState::TypeChange(tc) = &mut self.state {
            tc.new_tp = t;
        }
    }

    /// Saves the proposed kind when it is acceptable (see `acceptable`), as `set_type` does,
    /// and shows again; any other proposal is refused and stays pending.
    pub fn commit_type_change(&mut self) -> (r: bool)
        requires
            old(self).wf(),
        ensures
            final(self).wf(),
            r == (old(self).state_view() matches WaveState::TypeChange(tc) && acceptable(tc)),
            r ==> final(self).state_view() is Show && (old(self).state_view() matches WaveState::TypeChange(tc)
                && retyped(*old(self), *final(self), tc.new_tp)),
            !r ==> final(self).state_view() == old(self).state_view() && final(self).samples()
                == old(self).samples() && final(self).kind() == old(self).kind(),
    {
        let proposal = match &self.state {
            WaveState::TypeChange(tc) => Some(*tc),
            _ => None,
        };
        match proposal {
            Some(tc) => {
                if !acceptable_change(&tc) {
                    return false;
                }
                let t = tc.new_tp;
                self.state = WaveState::Show;
                self.set_type(t);
                true
            },
            None => false,
        }
    }

    /// Adds sample `i` to the selection for bulk edits.
    pub fn select(&mut self, i: usize)
        requires
            old(self).wf(),
            i < old(self).samples().len(),
        ensures
            final(self).wf(),
            final(self).selection().to_set() == old(self).selection().to_set().insert(i),
            final(self).samples() == old(self).samples(),
            final(self).kind() == old(self).kind(),
    {
        if index_in(&self.selected_data, i) {
            proof {
                assert(self.selected_data@.to_set().insert(i) =~= self.selected_data@.to_set());
            }
            return;
        }
        self.selected_data.push(i);
        proof {
            assert(self.selected_data@.to_set() =~= old(self).selected_data@.to_set().insert(i)) by {
                assert forall|x: usize| self.selected_data@.contains(x) <==> (old(self).selected_data@.contains(x) || x == i) by {
                    if old(self).selected_data@.contains(x) {
                        let w = choose|w: int| 0 <= w < old(self).selected_data@.len() && old(self).selected_data@[w] == x;
                        assert(self.selected_data@[w] == x);
                    }
                    if x == i {
                        assert(self.selected_data@[self.selected_data@.len() - 1] == x);
                    }
                    if self.selected_data@.contains(x) && x != i {
                        let w = choose|w: int| 0 <= w < self.selected_data@.len() && self.selected_data@[w] == x;
                        assert(old(self).selected_data@[w] == x);
                    }
                }
            }
            assert(self.selection_ok()) by {
                assert forall|k: int| 0 <= k < self.selected_data@.len() implies (#[trigger] self.selected_data@[k]) < self.data@.len() by {
                    if k < old(self).selected_data@.len() {
                        assert(old(self).selected_data@[k] == self.selected_data@[k]);
                        assert(old(self).selection_ok());
                    }
                }
            }
        }
    }

    /// Empties the selection.
    pub fn clear_selection(&mut self)
        requires
            old(self).wf(),
        ensures
            final(self).wf(),
            final(self).selection().len() == 0,
            final(self).samples() == old(self).samples(),
            final(self).kind() == old(self).kind(),
    {
        self.selected_data = Vec::new();
    }
}

/// Among the first `j` selected indices is `i`.
pub open spec fn picked(sel: Seq<usize>, j: int, i: int) -> bool {
    exists|k: int| 0 <= k < j && sel[k] as int == i
}

/// Whether `i` is among `v`.
fn index_in(v: &Vec<usize>, i: usize) -> (r: bool)
    ensures
        r == v@.contains(i),
{
    let mut k: usize = 0;
    while k < v.len()
        invariant
            k <= v@.len(),
            forall|j: int| 0 <= j < k ==> v@[j] != i,
        decreases v@.len() - k,
    {
        if v[k] == i {
            return true;
        }
        k = k + 1;
    }
    false
}

/// A proposed kind can be saved: it is valid, and a clock's period is at most the number
/// of samples the change was begun with and its phase at most its period.
pub open spec fn acceptable(tc: TypeChange) -> bool {
    &&& tc.new_tp.valid()
    &&& (tc.new_tp matches WaveType::Clock(c) ==> c.period <= tc.max_size && c.phase <= c.period)
}

/// Whether a proposed kind can be saved.
pub fn acceptable_change(tc: &TypeChange) -> (r: bool)
    ensures
        r == acceptable(*tc),
{
    match tc.new_tp {
        WaveType::Clock(c) => c.period > 0 && c.duty <= c.period && c.period <= tc.max_size
            && c.phase <= c.period,
        WaveType::Wire => true,
        WaveType::Reg(w) => 1 <= w && w <= 512,
    }
}

/// Whether a kind is valid.
pub fn type_valid(t: &WaveType) -> (r: bool)
    ensures
        r == t.valid(),
{
    match t {
        WaveType::Clock(c) => c.period > 0 && c.duty <= c.period,
        WaveType::Wire => true,
        WaveType::Reg(w) => 1 <= *w && *w <= 512,
    }
}

/// `new` is `old` after its kind became `t`: a clock regenerates every sample, shows in
/// binary and has extrema 0 and 1; a wire or register gives every sample the new width
/// (dropping higher bits), shows in binary or hexadecimal, and has recomputed extrema. Name,
/// selection, deletion mark and number of samples stay.
pub open spec fn retyped(old: Wave, new: Wave, t: WaveType) -> bool {
    &&& new.kind() == t
    &&& new.samples().len() == old.samples().len()
    &&& new.label() == old.label()
    &&& new.is_deleted() == old.is_deleted()
    &&& new.selection() == old.selection()
    &&& forall|i: int|
        0 <= i < new.samples().len() ==> (#[trigger] new.samples()[i]).wf() && new.samples()[i].width()
            == t.width()
    &&& match t {
        WaveType::Clock(c) => {
            &&& clock_samples(c, new.samples())
            &&& new.display_mode() == WaveDisplay::Binary
            &&& new.bounds() matches Some((lo, hi)) && lo.num(false) == 0 && hi.num(false) == 1
        },
        _ => {
            &&& new.display_mode() == if t is Wire {
                WaveDisplay::Binary
            } else {
                WaveDisplay::Hex
            }
            &&& forall|i: int|
                0 <= i < new.samples().len() ==> (#[trigger] new.samples()[i]).magnitude() == resized(
                    old.samples()[i].magnitude(),
                    t.width(),
                ) && new.samples()[i].is_neg() == old.samples()[i].is_neg()
            &&& match new.bounds() {
                Some((lo, hi)) => bounds_tight(new.samples(), lo, hi, new.display_mode().is_signed()),
                None => new.samples().len() == 0,
            }
        },
    }
}

/// Every sample of a well-formed wave is well formed and has the width of the wave's kind or
/// one bit; selected indices point at samples; there are extrema once there are samples.
pub proof fn lemma_wave_samples(w: Wave)
    requires
        w.wf(),
    ensures
        forall|i: int|
            0 <= i < w.samples().len() ==> (#[trigger] w.samples()[i]).wf() && width_fits(
                w.samples()[i],
                w.kind(),
            ),
        forall|i: int| 0 <= i < w.selection().len() ==> (#[trigger] w.selection()[i]) < w.samples().len(),
        w.samples().len() > 0 ==> w.bounds() is Some,
{
    assert(w.samples_ok());
    assert(w.selection_ok());
    assert(w.bounds_ok());
}

/// `new` is `old` with `len` samples: kept samples stay, added ones are 1-bit zeros with the
/// sign flag clear, a clock is regenerated, and the extrema are recomputed.
/// Kind, display, name and deletion mark stay.
pub open spec fn relengthened(old: Wave, new: Wave, len: nat) -> bool {
    &&& new.samples().len() == len
    &&& new.kind() == old.kind()
    &&& new.display_mode() == old.display_mode()
    &&& new.label() == old.label()
    &&& new.is_deleted() == old.is_deleted()
    &&& match new.kind() {
        WaveType::Clock(c) => clock_samples(c, new.samples()),
        _ => forall|i: int|
            0 <= i < len ==> if i < old.samples().len() {
                #[trigger] new.samples()[i] == old.samples()[i]
            } else {
                new.samples()[i].magnitude() == 0 && !new.samples()[i].is_neg() && new.samples()[i].width()
                    == 1
            },
    }
    &&& match new.bounds() {
        Some((lo, hi)) => bounds_tight(new.samples(), lo, hi, new.display_mode().is_signed()),
        None => len == 0,
    }
}

/// The smaller of the numbers of `a` and `b`, `b` on a tie.
pub open spec fn lower_of(a: BitValue, b: BitValue, signed: bool) -> BitValue {
    if b.num(signed) <= a.num(signed) {
        b
    } else {
        a
    }
}

/// The larger of the numbers of `a` and `b`, `b` on a tie.
pub open spec fn upper_of(a: BitValue, b: BitValue, signed: bool) -> BitValue {
    if a.num(signed) <= b.num(signed) {
        b
    } else {
        a
    }
}

/// The text an editor starts from: the value in the display's base, signed decimal when
/// the display reads values signed.
pub open spec fn shown_text(v: BitValue, d: WaveDisplay) -> Seq<char> {
    match d {
        WaveDisplay::Binary => numeral(v.magnitude(), 2, pad_len(2, v.width())),
        WaveDisplay::Hex => numeral(v.magnitude(), 16, pad_len(16, v.width())),
        _ => dec_text(v.magnitude(), d.is_signed() && v.is_neg(), v.width()),
    }
}

/// Every space of `s` turned into an underscore.
pub open spec fn underscored(s: Seq<char>) -> Seq<char> {
    s.map_values(|c: char| if c == ' ' { '_' } else { c })
}

/// The storage declaration text of a kind.
pub open spec fn export_text(t: WaveType) -> Seq<char> {
    match t {
        WaveType::Reg(w) => seq!['r', 'e', 'g', ' ', '['] + numeral(w as nat, 10, digit_count(w as nat, 10))
            + seq![':', '0', ']'],
        _ => seq!['w', 'i', 'r', 'e'],
    }
}

/// Binary lines of the samples, each ended by a newline.
pub open spec fn memb_lines(s: Seq<BitValue>) -> Seq<char>
    decreases s.len(),
{
    if s.len() == 0 {
        Seq::empty()
    } else {
        memb_lines(s.drop_last()) + numeral(s.last().magnitude(), 2, pad_len(2, s.last().width()))
            + seq!['\n']
    }
}

/// Appends the decimal digits of `x`, without leading zeros.
pub fn push_decimal(s: &mut String, x: u64)
    ensures
        final(s)@ == old(s)@ + numeral(x as nat, 10, digit_count(x as nat, 10)),
{
    let mut n: usize = 1;
    let mut y: u64 = x;
    assert(pow10(0) == 1);
    assert(pow10((n - 1) as nat) == 1);
    assert((y as nat) * 1 <= x as nat);
    while y >= 10
        invariant
            1 <= n <= 20,
            n - 1 + digit_count(y as nat, 10) == digit_count(x as nat, 10),
            y as nat * pow10((n - 1) as nat) <= x as nat,
        decreases y,
    {
        proof {
            assert(digit_count(y as nat, 10) == 1 + digit_count((y / 10) as nat, 10));
            lemma_pow10_step((n - 1) as nat, y as nat);
            assert(pow10(n as nat) <= (y / 10) as nat * pow10(n as nat)) by (nonlinear_arith)
                requires
                    y / 10 >= 1,
            ;
            lemma_pow10_big();
            if n >= 20 {
                lemma_pow10_mono(20, n as nat);
            }
        }
        y = y / 10;
        n = n + 1;
    }
    let w: [u64; 8] = [x, 0, 0, 0, 0, 0, 0, 0];
    proof {
        lemma_single_word(w@);
    }
    push_digits(w, 10, n, s);
}

pub open spec fn pow10(n: nat) -> nat
    decreases n,
{
    if n == 0 {
        1
    } else {
        10 * pow10((n - 1) as nat)
    }
}

proof fn lemma_pow10_step(n: nat, y: nat)
    requires
        y >= 10,
    ensures
        (y / 10) * pow10(n + 1) <= y * pow10(n),
{
    let q = y / 10;
    vstd::arithmetic::div_mod::lemma_fundamental_div_mod(y as int, 10);
    assert(pow10(n + 1) == 10 * pow10(n));
    assert(q * (10 * pow10(n)) <= y * pow10(n)) by (nonlinear_arith)
        requires
            10 * q <= y,
    ;
}

proof fn lemma_pow10_big()
    ensures
        pow10(20) > 0xffff_ffff_ffff_ffff,
{
    reveal_with_fuel(pow10, 21);
}

proof fn lemma_pow10_mono(i: nat, j: nat)
    requires
        i <= j,
    ensures
        pow10(i) <= pow10(j),
    decreases j,
{
    if i < j {
        lemma_pow10_mono(i, (j - 1) as nat);
    }
}

/// A value held in the first word alone.
proof fn lemma_single_word(w: Seq<u64>)
    requires
        w.len() == 8,
        forall|i: int| 1 <= i < 8 ==> w[i] == 0,
    ensures
        words_val(w) == w[0] as nat,
{
    crate::words::lemma_val_zeros(w.drop_first());
}

} // verus!
