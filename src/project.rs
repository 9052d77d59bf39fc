//! The project around the waves: its settings, the sweep of deleted waves and the data that
//! stimulus export consumes.
use crate::numeral::{digit_count, numeral, push_char};
use crate::wave::{export_text, push_decimal, relengthened, underscored, Wave};
use crate::wtype::WaveType;
use vstd::prelude::*;

verus! {

/// What a window reports after a frame.
#[derive(Clone, Copy, PartialEq, Eq, Structural, Debug)]
pub enum WindowResult {
    Open,
    Save,
    Cancel,
    Close,
}

/// Project-wide settings: the number of samples every wave has.
#[derive(Clone, Copy, PartialEq, Eq, Structural, Debug)]
pub struct ProjectSettings {
    pub max_time: usize,
}

impl ProjectSettings {
    /// Sixteen samples.
    pub fn new() -> (r: Self)
        ensures
            r.max_time == 16,
    {
        ProjectSettings { max_time: 16 }
    }
}

/// Choices for stimulus export.
#[derive(PartialEq, Eq, Debug)]
pub struct ProjectExport {
    pub generate_sv: bool,
    pub generate_mem: bool,
    pub export_folder: String,
}

impl ProjectExport {
    /// Both files, into `./test`.
    pub fn new() -> (r: Self)
        ensures
            r.generate_sv && r.generate_mem,
            r.export_folder@ == seq!['.', '/', 't', 'e', 's', 't'],
    {
        let mut folder = String::new();
        push_char(&mut folder, '.');
        push_char(&mut folder, '/');
        push_char(&mut folder, 't');
        push_char(&mut folder, 'e');
        push_char(&mut folder, 's');
        push_char(&mut folder, 't');
        ProjectExport { generate_sv: true, generate_mem: true, export_folder: folder }
    }
}

/// One signal as the stimulus template sees it.
#[derive(PartialEq, Eq, Debug)]
pub struct ExportVariable {
    pub tp: String,
    pub name: String,
    pub name_data: String,
    pub index: String,
    pub name_file: String,
    pub memory_size: usize,
}

/// Everything the stimulus template sees.
#[derive(PartialEq, Eq, Debug)]
pub struct ExportData {
    pub variables: Vec<ExportVariable>,
    pub end_time: usize,
}

/// Why there is nothing to export.
#[derive(Clone, Copy, PartialEq, Eq, Structural, Debug)]
pub enum ExportError {
    /// Stimulus generation needs at least one signal.
    NoSignals,
}

/// The export record of one wave: its kind's declaration, its identifier and the names
/// derived from it, and its number of samples.
pub open spec fn variable_of(w: Wave, v: ExportVariable) -> bool {
    let n = underscored(w.label());
    &&& v.tp@ == export_text(w.kind())
    &&& v.name@ == n
    &&& v.name_data@ == n + seq!['_', 'd', 'a', 't', 'a']
    &&& v.index@ == n + seq!['_', 'i', 'n', 'd', 'e', 'x']
    &&& v.name_file@ == n + seq!['_', 'f', 'i', 'l', 'e', '.', 'm', 'e', 'm', 'b']
    &&& v.memory_size == w.samples().len()
}

fn push_all(s: &mut String, tail: &str)
    ensures
        final(s)@ == old(s)@ + tail@,
{
    s.append(tail);
}

/// The export record of one wave.
pub fn export_variable(w: &Wave) -> (r: ExportVariable)
    ensures
        variable_of(*w, r),
{
    let name = w.name();
    let mut name_data = w.name();
    let mut index = w.name();
    let mut name_file = w.name();
    push_all(&mut name_data, "_data");
    push_all(&mut index, "_index");
    push_all(&mut name_file, "_file.memb");
    proof {
        reveal_strlit("_data");
        reveal_strlit("_index");
        reveal_strlit("_file.memb");
        assert(name_data@ =~= underscored(w.label()) + seq!['_', 'd', 'a', 't', 'a']);
        assert(index@ =~= underscored(w.label()) + seq!['_', 'i', 'n', 'd', 'e', 'x']);
        assert(name_file@ =~= underscored(w.label()) + seq![
            '_',
            'f',
            'i',
            'l',
            'e',
            '.',
            'm',
            'e',
            'm',
            'b',
        ]);
    }
    ExportVariable {
        tp: w.export_type(),
        name,
        name_data,
        index,
        name_file,
        memory_size: w.len(),
    }
}

/// What stimulus export hands its template: one record per wave, in order, and an end time
/// of twice the first wave's length (saturating). Fails when there is no wave.
pub fn export_data(waves: &Vec<Wave>) -> (r: Result<ExportData, ExportError>)
    ensures
        waves@.len() == 0 <==> r == Err::<ExportData, ExportError>(ExportError::NoSignals),
        r matches Ok(d) ==> {
            &&& d.variables@.len() == waves@.len()
            &&& forall|i: int| 0 <= i < waves@.len() ==> variable_of(waves@[i], #[trigger] d.variables@[i])
            &&& d.end_time == if waves@[0].samples().len() * 2 <= usize::MAX {
                (waves@[0].samples().len() * 2) as usize
            } else {
                usize::MAX
            }
        },
{
    if waves.len() == 0 {
        return Err(ExportError::NoSignals);
    }
    let first = waves[0].len();
    let end_time = if first <= usize::MAX / 2 {
        first * 2
    } else {
        usize::MAX
    };
    let mut variables: Vec<ExportVariable> = Vec::new();
    let mut i: usize = 0;
    while i < waves.len()
        invariant
            i <= waves@.len(),
            variables@.len() == i,
            forall|j: int| 0 <= j < i ==> variable_of(waves@[j], #[trigger] variables@[j]),
        decreases waves@.len() - i,
    {
        variables.push(export_variable(&waves[i]));
        i = i + 1;
    }
    Ok(ExportData { variables, end_time })
}

/// The waves not marked deleted, in order.
pub open spec fn undeleted(s: Seq<Wave>) -> Seq<Wave>
    decreases s.len(),
{
    if s.len() == 0 {
        Seq::empty()
    } else if s.last().is_deleted() {
        undeleted(s.drop_last())
    } else {
        undeleted(s.drop_last()).push(s.last())
    }
}

/// Sweeping a concatenation sweeps each part.
pub proof fn lemma_undeleted_concat(a: Seq<Wave>, b: Seq<Wave>)
    ensures
        undeleted(a + b) == undeleted(a) + undeleted(b),
    decreases b.len(),
{
    if b.len() == 0 {
        assert(a + b =~= a);
        assert(undeleted(a) + Seq::<Wave>::empty() =~= undeleted(a));
    } else {
        lemma_undeleted_concat(a, b.drop_last());
        assert((a + b).drop_last() =~= a + b.drop_last());
        assert((a + b).last() == b.last());
        if !b.last().is_deleted() {
            assert(undeleted(a) + undeleted(b.drop_last()).push(b.last()) =~= (undeleted(a)
                + undeleted(b.drop_last())).push(b.last()));
        }
    }
}

/// Waves none of which is marked deleted all stay.
pub proof fn lemma_undeleted_none(s: Seq<Wave>)
    requires
        forall|i: int| 0 <= i < s.len() ==> !(#[trigger] s[i]).is_deleted(),
    ensures
        undeleted(s) == s,
    decreases s.len(),
{
    if s.len() > 0 {
        lemma_undeleted_none(s.drop_last());
        assert(s.drop_last().push(s.last()) =~= s);
    }
}

/// Marking one wave of an unmarked list deleted and then sweeping removes exactly that wave
/// and keeps the others in their order.
pub proof fn law_delete_then_sweep(s: Seq<Wave>, k: int, marked: Wave)
    requires
        0 <= k < s.len(),
        forall|i: int| 0 <= i < s.len() ==> !(#[trigger] s[i]).is_deleted(),
        marked.is_deleted(),
    ensures
        undeleted(s.update(k, marked)) == s.remove(k),
{
    let t = s.update(k, marked);
    assert(t =~= s.take(k) + seq![marked] + s.skip(k + 1));
    lemma_undeleted_concat(s.take(k) + seq![marked], s.skip(k + 1));
    lemma_undeleted_concat(s.take(k), seq![marked]);
    lemma_undeleted_none(s.take(k));
    lemma_undeleted_none(s.skip(k + 1));
    assert(seq![marked].drop_last() =~= Seq::<Wave>::empty());
    assert(seq![marked].last() == marked);
    assert(undeleted(Seq::<Wave>::empty()) == Seq::<Wave>::empty());
    assert(undeleted(seq![marked]) =~= Seq::<Wave>::empty());
    assert(s.remove(k) =~= s.take(k) + s.skip(k + 1));
    assert(s.take(k) + Seq::<Wave>::empty() =~= s.take(k));
}

/// Removes every wave marked deleted, keeping the others in order.
pub fn sweep_deleted(waves: &mut Vec<Wave>)
    ensures
        final(waves)@ == undeleted(old(waves)@),
{
    let ghost orig = waves@;
    let mut i: usize = 0;
    let ghost mut j: int = 0;
    proof {
        assert(undeleted(orig.take(0)) =~= Seq::<Wave>::empty());
        assert(waves@.take(0) =~= Seq::<Wave>::empty());
    }
    while i < waves.len()
        invariant
            0 <= j <= orig.len(),
            i <= waves@.len(),
            waves@.take(i as int) == undeleted(orig.take(j)),
            waves@.skip(i as int) == orig.skip(j),
        decreases waves@.len() - i,
    {
        proof {
            assert(orig.skip(j).len() == waves@.skip(i as int).len());
            assert(j < orig.len());
            assert(waves@[i as int] == orig.skip(j)[0]);
            assert(orig.take(j + 1).drop_last() =~= orig.take(j));
            assert(orig.take(j + 1).last() == orig[j]);
        }
        if waves[i].deleted() {
            let ghost before = waves@;
            let _gone = waves.remove(i);
            proof {
                assert(waves@.take(i as int) =~= before.take(i as int));
                lemma_skip_step(before, orig, i as int, j);
                assert(waves@.skip(i as int) =~= before.skip(i as int + 1));
                assert(undeleted(orig.take(j + 1)) == undeleted(orig.take(j)));
                j = j + 1;
            }
        } else {
            proof {
                assert(waves@.take(i as int + 1) =~= waves@.take(i as int).push(waves@[i as int]));
                lemma_skip_step(waves@, orig, i as int, j);
                assert(undeleted(orig.take(j + 1)) == undeleted(orig.take(j)).push(orig[j]));
                j = j + 1;
            }
            i = i + 1;
        }
    }
    proof {
        assert(waves@.take(i as int) =~= waves@);
        assert(orig.skip(j).len() == 0);
        assert(orig.take(j) =~= orig);
    }
}

proof fn lemma_skip_step(a: Seq<Wave>, b: Seq<Wave>, i: int, j: int)
    requires
        0 <= i < a.len(),
        0 <= j <= b.len(),
        a.skip(i) == b.skip(j),
    ensures
        a.skip(i + 1) == b.skip(j + 1),
{
    assert(a.skip(i).len() == b.skip(j).len());
    assert(a.skip(i).len() == a.len() - i);
    assert(b.skip(j).len() == b.len() - j);
    assert(j < b.len());
    assert(a.skip(i + 1).len() == b.skip(j + 1).len());
    assert forall|k: int| 0 <= k < a.skip(i + 1).len() implies #[trigger] a.skip(i + 1)[k] == b.skip(
        j + 1,
    )[k] by {
        assert(a.skip(i + 1)[k] == a[i + 1 + k]);
        assert(a.skip(i)[k + 1] == a[i + 1 + k]);
        assert(b.skip(j + 1)[k] == b[j + 1 + k]);
        assert(b.skip(j)[k + 1] == b[j + 1 + k]);
        assert(a.skip(i)[k + 1] == b.skip(j)[k + 1]);
    }
    assert(a.skip(i + 1) =~= b.skip(j + 1));
}

/// Appends a wire named `Wire N`, N being the number of waves before it, with `samples` zero
/// samples.
pub fn add_wave(waves: &mut Vec<Wave>, samples: usize)
    ensures
        final(waves)@.len() == old(waves)@.len() + 1,
        final(waves)@.drop_last() == old(waves)@,
        final(waves)@.last().wf(),
        final(waves)@.last().label() == seq!['W', 'i', 'r', 'e', ' '] + numeral(
            old(waves)@.len(),
            10,
            digit_count(old(waves)@.len(), 10),
        ),
        final(waves)@.last().samples().len() == samples,
        final(waves)@.last().kind() == WaveType::Wire,
{
    let mut name = String::new();
    push_char(&mut name, 'W');
    push_char(&mut name, 'i');
    push_char(&mut name, 'r');
    push_char(&mut name, 'e');
    push_char(&mut name, ' ');
    push_decimal(&mut name, waves.len() as u64);
    waves.push(Wave::new(name, samples));
    proof {
        assert(waves@.drop_last() =~= old(waves)@);
    }
}

/// Applies new settings: when the number of samples changes, every wave is resized as
/// `Wave::set_len` does (see `relengthened`); the settings take the new values.
pub fn apply_settings(waves: &mut Vec<Wave>, settings: &mut ProjectSettings, new: ProjectSettings)
    requires
        forall|i: int| 0 <= i < old(waves)@.len() ==> (#[trigger] old(waves)@[i]).wf(),
    ensures
        *final(settings) == new,
        final(waves)@.len() == old(waves)@.len(),
        forall|i: int| 0 <= i < final(waves)@.len() ==> (#[trigger] final(waves)@[i]).wf(),
        new.max_time != old(settings).max_time ==> forall|i: int|
            0 <= i < final(waves)@.len() ==> relengthened(
                old(waves)@[i],
                #[trigger] final(waves)@[i],
                new.max_time as nat,
            ),
        new.max_time == old(settings).max_time ==> final(waves)@ == old(waves)@,
{
    if new.max_time != settings.max_time {
        let mut i: usize = 0;
        while i < waves.len()
            invariant
                i <= waves@.len(),
                waves@.len() == old(waves)@.len(),
                forall|j: int| 0 <= j < waves@.len() ==> (#[trigger] waves@[j]).wf(),
                forall|j: int|
                    0 <= j < i ==> relengthened(old(waves)@[j], #[trigger] waves@[j], new.max_time as nat),
                forall|j: int| i <= j < waves@.len() ==> #[trigger] waves@[j] == old(waves)@[j],
            decreases waves@.len() - i,
        {
            let mut w = waves.remove(i);
            w.set_len(new.max_time);
            waves.insert(i, w);
            i = i + 1;
        }
    }
    *settings = new;
}

} // verus!
