//! The layer barrier: which neurons may fire next, and how a round of
//! firings of one layer hands over to the layers that follow it.
use vstd::prelude::*;

verus! {

/// Where the slots of layer `k` start: the sum of the sizes of the layers before it.
pub open spec fn layer_start(fix: Seq<usize>, k: int) -> int
    decreases k,
{
    if k <= 0 {
        0
    } else {
        layer_start(fix, k - 1) + fix[k - 1]
    }
}

/// Slot `j` belongs to layer `l`.
pub open spec fn in_layer(fix: Seq<usize>, l: int, j: int) -> bool {
    layer_start(fix, l) <= j < layer_start(fix, l) + fix[l]
}

/// The enabled-slot flags after every slot of layer `l` has been enabled.
pub open spec fn activate_layer(check: Seq<bool>, fix: Seq<usize>, l: int) -> Seq<bool> {
    Seq::new(check.len(), |j: int| in_layer(fix, l, j) || check[j])
}

/// The enabled-slot flags after the layers `i < k` whose flag is raised have been enabled,
/// in increasing order of `i`.
pub open spec fn activate_flagged(check: Seq<bool>, fix: Seq<usize>, flags: Seq<bool>, k: int) -> Seq<bool>
    decreases k,
{
    if k <= 0 {
        check
    } else {
        let c = activate_flagged(check, fix, flags, k - 1);
        if flags[k - 1] {
            activate_layer(c, fix, k - 1)
        } else {
            c
        }
    }
}

/// The number of neurons in the layers `i < k` whose flag is raised.
pub open spec fn flagged_total(fix: Seq<usize>, flags: Seq<bool>, k: int) -> int
    decreases k,
{
    if k <= 0 {
        0
    } else {
        flagged_total(fix, flags, k - 1) + if flags[k - 1] { fix[k - 1] as int } else { 0 }
    }
}

/// The layer flags once layer `lp` has completed a round: its own flag is lowered,
/// and the layers it hands over to are raised. Layer 1 hands over to layer 2 and,
/// unless this was its last round, back to layer 0; a layer other than 1 hands over
/// to the next one, when there is one before the last.
pub open spec fn hand_over(flags: Seq<bool>, lp: int, last: bool) -> Seq<bool> {
    let lowered = flags.update(lp, false);
    if lp == 1 {
        if last {
            lowered.update(2, true)
        } else {
            lowered.update(0, true).update(2, true)
        }
    } else if lp < flags.len() - 1 {
        lowered.update(lp + 1, true)
    } else {
        lowered
    }
}

/// The state of a barrier, as the contracts see it.
pub struct BarrierView {
    /// The number of neurons of each layer.
    pub fix: Seq<usize>,
    /// The number of neurons of each layer that have counted down in the current round.
    pub val: Seq<usize>,
    /// Whether the neuron in each slot may run.
    pub check: Seq<bool>,
    /// Whether each layer is to be enabled when the current wave ends.
    pub check_layer: Seq<bool>,
    /// The number of count-downs still awaited before the current wave ends.
    pub n: usize,
}

impl BarrierView {
    /// The per-layer sequences agree in length, and there is one slot per neuron.
    pub open spec fn wf(self) -> bool {
        &&& self.val.len() == self.fix.len()
        &&& self.check_layer.len() == self.fix.len()
        &&& self.check.len() == layer_start(self.fix, self.fix.len() as int)
    }

    /// A neuron of layer `layer` (counted from 1) may count down: the layer exists, a
    /// count-down is awaited, the layer's counter can grow, and when layer 2 completes
    /// its round there is a third layer to hand over to.
    pub open spec fn can_count_down(self, layer: int) -> bool {
        &&& 1 <= layer <= self.fix.len()
        &&& self.n >= 1
        &&& self.val[layer - 1] < usize::MAX
        &&& (layer == 2 && self.val[1] + 1 == self.fix[1] ==> self.fix.len() > 2)
    }

    /// The state after a neuron of layer index `lp` counts down.
    pub open spec fn counted_down(self, lp: int, last: bool) -> BarrierView {
        let counted = self.val[lp] + 1;
        let completed = counted == self.fix[lp];
        let val = if completed { self.val.update(lp, 0) } else { self.val.update(lp, counted as usize) };
        let check_layer = if completed { hand_over(self.check_layer, lp, last) } else { self.check_layer };
        let n = (self.n - 1) as usize;
        if n == 0 {
            BarrierView {
                fix: self.fix,
                val,
                check: activate_flagged(self.check, self.fix, check_layer, check_layer.len() as int),
                check_layer,
                n: flagged_total(self.fix, check_layer, check_layer.len() as int) as usize,
            }
        } else {
            BarrierView { fix: self.fix, val, check: self.check, check_layer, n }
        }
    }
}

/// The layer barrier: one slot per neuron, numbered layer after layer.
pub struct barriera {
    fix: Vec<usize>,
    val: Vec<usize>,
    check: Vec<bool>,
    checkLayer: Vec<bool>,
    n: usize,
}

impl View for barriera {
    type V = BarrierView;

    closed spec fn view(&self) -> BarrierView {
        BarrierView {
            fix: self.fix@,
            val: self.val@,
            check: self.check@,
            check_layer: self.checkLayer@,
            n: self.n,
        }
    }
}

/// No layer starts before slot 0.
pub proof fn lemma_layer_start_nonneg(fix: Seq<usize>, k: int)
    ensures
        0 <= layer_start(fix, k),
    decreases k,
{
    if k > 0 {
        lemma_layer_start_nonneg(fix, k - 1);
    }
}

/// The start of a layer never passes the start of a later one.
pub proof fn lemma_layer_start_mono(fix: Seq<usize>, a: int, b: int)
    requires
        a <= b,
    ensures
        layer_start(fix, a) <= layer_start(fix, b),
    decreases b - a,
{
    lemma_layer_start_nonneg(fix, a);
    if a < b {
        lemma_layer_start_mono(fix, a, b - 1);
    }
}

/// The start of layer `k` depends only on the sizes of the layers before it.
pub proof fn lemma_layer_start_prefix(s: Seq<usize>, t: Seq<usize>, k: int)
    requires
        0 <= k <= s.len(),
        k <= t.len(),
        forall|i: int| 0 <= i < k ==> s[i] == t[i],
    ensures
        layer_start(s, k) == layer_start(t, k),
    decreases k,
{
    if k > 0 {
        lemma_layer_start_prefix(s, t, k - 1);
    }
}

/// The neurons of the flagged layers before `k` are no more than all the neurons before `k`.
pub proof fn lemma_flagged_total_bound(fix: Seq<usize>, flags: Seq<bool>, k: int)
    ensures
        0 <= flagged_total(fix, flags, k) <= layer_start(fix, k),
    decreases k,
{
    if k > 0 {
        lemma_flagged_total_bound(fix, flags, k - 1);
    }
}

/// Enabling flagged layers keeps one flag per slot.
pub proof fn lemma_activate_flagged_len(check: Seq<bool>, fix: Seq<usize>, flags: Seq<bool>, k: int)
    ensures
        activate_flagged(check, fix, flags, k).len() == check.len(),
    decreases k,
{
    if k > 0 {
        lemma_activate_flagged_len(check, fix, flags, k - 1);
    }
}

impl barriera {
    /// A barrier for `capacity` layers whose sizes are the first `capacity` entries of
    /// `val`: no neuron has counted down, no layer is flagged, and the neurons of the
    /// first layer are enabled and awaited.
    pub fn new(capacity: usize, val: Vec<usize>) -> (bar: barriera)
        requires
            1 <= capacity <= val.len(),
            layer_start(val@, capacity as int) <= usize::MAX,
        ensures
            bar@.wf(),
            bar@.fix == val@.take(capacity as int),
            bar@.val == Seq::new(capacity as nat, |i: int| 0usize),
            bar@.check_layer == Seq::new(capacity as nat, |i: int| false),
            bar@.check == activate_layer(
                Seq::new(layer_start(val@, capacity as int) as nat, |j: int| false),
                val@.take(capacity as int),
                0,
            ),
            bar@.n == val@[0],
            bar@.check.len() == layer_start(val@, capacity as int),
            forall|j: int| 0 <= j < bar@.check.len() ==> (#[trigger] bar@.check[j] <==> j < val@[0]),
    {
        let mut vettore: Vec<usize> = Vec::with_capacity(capacity);
        let mut vettore_check: Vec<bool> = Vec::new();
        let mut vettore_checkLayer: Vec<bool> = Vec::new();
        let mut vettore_fix: Vec<usize> = Vec::with_capacity(capacity);
        let mut numeroNeuroni: usize = 0;
        let mut i: usize = 0;
        while i < capacity
            invariant
                i <= capacity <= val.len(),
                layer_start(val@, capacity as int) <= usize::MAX,
                vettore_fix@ == val@.take(i as int),
                vettore@ == Seq::new(i as nat, |k: int| 0usize),
                vettore_checkLayer@ == Seq::new(i as nat, |k: int| false),
                numeroNeuroni == layer_start(val@, i as int),
            decreases capacity - i,
        {
            proof {
                lemma_layer_start_mono(val@, i as int + 1, capacity as int);
            }
            vettore_fix.push(val[i]);
            vettore.push(0);
            numeroNeuroni = numeroNeuroni + val[i];
            vettore_checkLayer.push(false);
            i = i + 1;
            assert(vettore_fix@ =~= val@.take(i as int));
            assert(vettore@ =~= Seq::new(i as nat, |k: int| 0usize));
            assert(vettore_checkLayer@ =~= Seq::new(i as nat, |k: int| false));
        }
        let mut k: usize = 0;
        while k < numeroNeuroni
            invariant
                k <= numeroNeuroni,
                vettore_check@ == Seq::new(k as nat, |j: int| false),
            decreases numeroNeuroni - k,
        {
            vettore_check.push(false);
            k = k + 1;
            assert(vettore_check@ =~= Seq::new(k as nat, |j: int| false));
        }
        proof {
            lemma_layer_start_prefix(vettore_fix@, val@, capacity as int);
        }
        let n = vettore_fix[0];
        let mut bar = barriera {
            val: vettore,
            fix: vettore_fix,
            check: vettore_check,
            checkLayer: vettore_checkLayer,
            n: n,
        };
        bar.attivaLivello(0);
        proof {
            assert(layer_start(bar@.fix, 0) == 0);
        }
        bar
    }

    /// A neuron of layer `layer` (counted from 1) counts down: see
    /// [`BarrierView::counted_down`]. When the last awaited neuron counts down, every
    /// flagged layer is enabled and its neurons become the awaited ones.
    pub fn count_down(&mut self, layer: usize, ultimogiro: bool)
        requires
            old(self)@.wf(),
            old(self)@.can_count_down(layer as int),
        ensures
            final(self)@.wf(),
            final(self)@ == old(self)@.counted_down(layer - 1, ultimogiro),
    {
        let ghost pre = self@;
        let lp = layer - 1;
        self.n = self.n - 1;
        let counted = self.val[lp] + 1;
        if counted == self.fix[lp] {
            self.val.set(lp, 0);
            self.checkLayer.set(lp, false);
            let len = self.val.len();
            if lp == 1 {
                if ultimogiro {
                    self.checkLayer.set(2, true);
                } else {
                    self.checkLayer.set(0, true);
                    self.checkLayer.set(2, true);
                }
            } else if lp < len - 1 {
                self.checkLayer.set(lp + 1, true);
            }
        } else {
            self.val.set(lp, counted);
        }
        let ghost post = pre.counted_down(lp as int, ultimogiro);
        assert(self.val@ =~= post.val);
        assert(self.checkLayer@ =~= post.check_layer);
        if self.n == 0 {
            let ghost check0 = self.check@;
            let ghost fix = self.fix@;
            let ghost flags = self.checkLayer@;
            let ghost mid = self@;
            let total = self.check.len();
            let len = self.checkLayer.len();
            let mut i: usize = 0;
            while i < len
                invariant
                    i <= len,
                    len == flags.len(),
                    fix.len() == flags.len(),
                    total == layer_start(fix, fix.len() as int),
                    mid.wf(),
                    self.fix@ == fix,
                    self.checkLayer@ == flags,
                    self.val@ == mid.val,
                    self.check@ == activate_flagged(check0, fix, flags, i as int),
                    self.n == flagged_total(fix, flags, i as int),
                    check0 == mid.check,
                    mid.fix == fix,
                    mid.check_layer == flags,
                decreases len - i,
            {
                proof {
                    lemma_activate_flagged_len(check0, fix, flags, i as int);
                    lemma_flagged_total_bound(fix, flags, i as int + 1);
                    lemma_layer_start_mono(fix, i as int + 1, fix.len() as int);
                }
                if self.checkLayer[i] {
                    self.attivaLivello(i);
                    self.n = self.n + self.fix[i];
                }
                i = i + 1;
            }
            proof {
                lemma_activate_flagged_len(check0, fix, flags, len as int);
            }
        }
    }

    /// The neuron in slot `tid` tries to pass the barrier: it passes when it is enabled,
    /// and passing uses its permission up.
    pub fn try_pass(&mut self, tid: usize) -> (passed: bool)
        requires
            tid < old(self)@.check.len(),
        ensures
            passed == old(self)@.check[tid as int],
            final(self)@ == (BarrierView { check: old(self)@.check.update(tid as int, false), ..old(self)@ }),
    {
        let passed = self.check[tid];
        if passed {
            self.check.set(tid, false);
        }
        assert(self.check@ =~= old(self)@.check.update(tid as int, false));
        passed
    }

    /// Whether a neuron of layer `layer` (counted from 1) may count down now.
    pub fn can_count_down(&self, layer: usize) -> (ok: bool)
        requires
            self@.wf(),
        ensures
            ok == self@.can_count_down(layer as int),
    {
        if layer < 1 || layer > self.fix.len() || self.n < 1 {
            return false;
        }
        if self.val[layer - 1] == usize::MAX {
            return false;
        }
        if layer == 2 && self.val[1] + 1 == self.fix[1] && self.fix.len() <= 2 {
            return false;
        }
        true
    }

    /// The number of slots: one per neuron of the network.
    pub fn slots(&self) -> (len: usize)
        ensures
            len == self@.check.len(),
    {
        self.check.len()
    }

    /// The number of count-downs still awaited before the current wave ends.
    pub fn pending(&self) -> (n: usize)
        ensures
            n == self@.n,
    {
        self.n
    }
    /// Enables every neuron of layer `layer`; the other slots keep their state.
    pub fn attivaLivello(&mut self, layer: usize)
        requires
            old(self)@.wf(),
            layer < old(self)@.fix.len(),
        ensures
            final(self)@ == (BarrierView { check: activate_layer(old(self)@.check, old(self)@.fix, layer as int), ..old(self)@ }),
    {
        let ghost fix = self.fix@;
        let ghost old_view = self@;
        let total = self.check.len();
        proof {
            lemma_layer_start_mono(fix, layer as int + 1, fix.len() as int);
        }
        let mut indicePartenza: usize = 0;
        let mut i: usize = 0;
        while i < layer
            invariant
                fix == self.fix@,
                layer < fix.len(),
                i <= layer,
                indicePartenza == layer_start(fix, i as int),
                layer_start(fix, layer as int + 1) <= layer_start(fix, fix.len() as int),
                layer_start(fix, fix.len() as int) == total,
                self@ == old_view,
            decreases layer - i,
        {
            proof {
                lemma_layer_start_mono(fix, i as int + 1, layer as int + 1);
            }
            indicePartenza = indicePartenza + self.fix[i];
            i = i + 1;
        }
        let ghost old_check = self.check@;
        let size = self.fix[layer];
        let mut k: usize = 0;
        while k < size
            invariant
                fix == self.fix@,
                layer < fix.len(),
                size == fix[layer as int],
                indicePartenza == layer_start(fix, layer as int),
                indicePartenza + size <= self.check@.len(),
                self.check@.len() == total,
                k <= size,
                self.check@.len() == old_check.len(),
                self@ == (BarrierView { check: self.check@, ..old_view }),
                forall|j: int|
                    0 <= j < self.check@.len() ==> #[trigger] self.check@[j] == ((indicePartenza <= j
                        < indicePartenza + k) || old_check[j]),
            decreases size - k,
        {
            self.check.set(indicePartenza + k, true);
            k = k + 1;
        }
        assert(self.check@ =~= activate_layer(old_check, fix, layer as int));
    }
}

} // verus!

verus! {

/// Law of the slots: every slot of the barrier belongs to exactly one layer, so
/// enabling a layer enables its own neurons and no neuron of another layer.
pub proof fn law_slot_in_one_layer(fix: Seq<usize>, j: int)
    requires
        0 <= j < layer_start(fix, fix.len() as int),
    ensures
        exists|l: int| 0 <= l < fix.len() && #[trigger] in_layer(fix, l, j),
        forall|l1: int, l2: int|
            0 <= l1 < fix.len() && 0 <= l2 < fix.len() && #[trigger] in_layer(fix, l1, j) && #[trigger] in_layer(
                fix,
                l2,
                j,
            ) ==> l1 == l2,
{
    lemma_slot_found(fix, j, fix.len() as int);
    assert forall|l1: int, l2: int|
        0 <= l1 < fix.len() && 0 <= l2 < fix.len() && #[trigger] in_layer(fix, l1, j) && #[trigger] in_layer(fix, l2, j)
        implies l1 == l2 by {
        if l1 < l2 {
            lemma_layer_start_mono(fix, l1 + 1, l2);
        } else if l2 < l1 {
            lemma_layer_start_mono(fix, l2 + 1, l1);
        }
    }
}

/// A slot before the start of layer `k` belongs to one of the layers before `k`.
proof fn lemma_slot_found(fix: Seq<usize>, j: int, k: int)
    requires
        0 <= j < layer_start(fix, k),
        k <= fix.len(),
    ensures
        exists|l: int| 0 <= l < k && #[trigger] in_layer(fix, l, j),
    decreases k,
{
    if k > 0 {
        if j < layer_start(fix, k - 1) {
            lemma_slot_found(fix, j, k - 1);
        } else {
            assert(in_layer(fix, k - 1, j));
        }
    }
}

/// Law of the end of a wave: once the flagged layers before `k` are enabled, a slot is
/// enabled exactly when it was already, or it belongs to one of those layers.
pub proof fn law_wave_enables(check: Seq<bool>, fix: Seq<usize>, flags: Seq<bool>, k: int, j: int)
    requires
        0 <= j < check.len(),
    ensures
        activate_flagged(check, fix, flags, k)[j] <==> check[j] || exists|l: int|
            0 <= l < k && #[trigger] flags[l] && in_layer(fix, l, j),
    decreases k,
{
    if k > 0 {
        law_wave_enables(check, fix, flags, k - 1, j);
        lemma_activate_flagged_len(check, fix, flags, k - 1);
        if exists|l: int| 0 <= l < k && #[trigger] flags[l] && in_layer(fix, l, j) {
            let l = choose|l: int| 0 <= l < k && #[trigger] flags[l] && in_layer(fix, l, j);
            if l < k - 1 {
                assert(exists|l2: int| 0 <= l2 < k - 1 && #[trigger] flags[l2] && in_layer(fix, l2, j));
            }
        }
    }
}

/// Law of the round counters: when every layer with neurons has counted fewer
/// count-downs than it has neurons, that stays so after a neuron counts down: a
/// layer's counter goes back to 0 when its round completes.
pub proof fn law_round_counters(v: BarrierView, lp: int, last: bool)
    requires
        v.wf(),
        0 <= lp < v.fix.len(),
        v.n >= 1,
        forall|l: int| 0 <= l < v.fix.len() && v.fix[l] > 0 ==> #[trigger] v.val[l] < v.fix[l],
    ensures
        forall|l: int|
            0 <= l < v.fix.len() && v.fix[l] > 0 ==> #[trigger] v.counted_down(lp, last).val[l] < v.fix[l],
{
    let w = v.counted_down(lp, last);
    assert forall|l: int| 0 <= l < v.fix.len() && v.fix[l] > 0 implies #[trigger] w.val[l] < v.fix[l] by {
        if l != lp {
            assert(w.val[l] == v.val[l]);
        }
    }
}

/// Law of passing: a neuron that has passed the barrier must be enabled again
/// before it passes a second time.
pub proof fn law_pass_consumed(v: BarrierView, tid: int)
    requires
        0 <= tid < v.check.len(),
    ensures
        !(BarrierView { check: v.check.update(tid, false), ..v }).check[tid],
{
}

} // verus!

verus! {

/// Law of accepted count-downs: in a barrier of at least three layers whose round
/// counters stay below their layer sizes (as [`law_round_counters`] keeps them), while
/// a count-down is awaited, every neuron of a non-empty layer may count down. With two
/// layers, the end of layer 2's round has no third layer to hand over to, and the
/// count-down that ends it is refused.
pub proof fn law_count_down_accepted(v: BarrierView, layer: int)
    requires
        v.wf(),
        v.fix.len() >= 3,
        v.n >= 1,
        forall|l: int| 0 <= l < v.fix.len() && v.fix[l] > 0 ==> #[trigger] v.val[l] < v.fix[l],
        1 <= layer <= v.fix.len(),
        v.fix[layer - 1] > 0,
    ensures
        v.can_count_down(layer),
{
    assert(v.val[layer - 1] < v.fix[layer - 1]);
}

} // verus!

verus! {

/// Law of a count-down: a neuron of layer index `lp` counts down.
/// - Its layer's counter grows by one, or goes back to 0 when it reaches the layer's
///   size, which completes the layer's round; no other counter moves.
/// - A round that does not complete leaves every layer flag as it was.
/// - A completed round lowers the layer's own flag and raises the next layer's,
///   whether or not this was the last round; layer index 1 also raises layer 0's
///   flag, unless this was its last round. No other flag moves.
/// - Only layer index 1 looks at whether this was the last round.
/// - While other count-downs are still awaited, nothing is enabled and one fewer is
///   awaited; the last awaited count-down enables, besides what already was, exactly
///   the slots of the layers flagged after it.
pub proof fn law_count_down(v: BarrierView, lp: int, last: bool)
    requires
        v.wf(),
        v.can_count_down(lp + 1),
    ensures
        ({
            let w = v.counted_down(lp, last);
            &&& w.fix == v.fix
            &&& w.wf()
            &&& v.val[lp] + 1 != v.fix[lp] ==> w.val[lp] == v.val[lp] + 1
            &&& v.val[lp] + 1 == v.fix[lp] ==> w.val[lp] == 0
            &&& forall|l: int| 0 <= l < v.fix.len() && l != lp ==> #[trigger] w.val[l] == v.val[l]
            &&& v.val[lp] + 1 != v.fix[lp] ==> w.check_layer == v.check_layer
            &&& v.val[lp] + 1 == v.fix[lp] ==> {
                &&& !w.check_layer[lp]
                &&& lp + 1 < v.fix.len() ==> w.check_layer[lp + 1]
                &&& lp == 1 && !last ==> w.check_layer[0]
                &&& forall|l: int|
                    0 <= l < v.fix.len() && l != lp && l != lp + 1 && !(lp == 1 && l == 0 && !last)
                        ==> #[trigger] w.check_layer[l] == v.check_layer[l]
            }
            &&& lp != 1 ==> w == v.counted_down(lp, !last)
            &&& v.n > 1 ==> w.n == v.n - 1 && w.check == v.check
            &&& v.n == 1 ==> forall|j: int|
                0 <= j < v.check.len() ==> (#[trigger] w.check[j] <==> v.check[j] || exists|l: int|
                    0 <= l < v.fix.len() && #[trigger] w.check_layer[l] && in_layer(v.fix, l, j))
        }),
{
    let w = v.counted_down(lp, last);
    lemma_activate_flagged_len(v.check, v.fix, w.check_layer, w.check_layer.len() as int);
    if v.n == 1 {
        assert forall|j: int| 0 <= j < v.check.len() implies (#[trigger] w.check[j] <==> v.check[j] || exists|l: int|
            0 <= l < v.fix.len() && #[trigger] w.check_layer[l] && in_layer(v.fix, l, j)) by {
            law_wave_enables(v.check, v.fix, w.check_layer, w.check_layer.len() as int, j);
        }
    }
}

/// `m` count-downs of neurons of layer index `lp`, one after the other.
pub open spec fn count_downs(v: BarrierView, lp: int, last: bool, m: nat) -> BarrierView
    decreases m,
{
    if m == 0 {
        v
    } else {
        count_downs(v, lp, last, (m - 1) as nat).counted_down(lp, last)
    }
}

/// Law of a round: from a fresh round, a layer of `k` neurons has counted `m` of them
/// after `m < k` count-downs of its neurons, and completes its round, its counter back
/// to 0, at exactly the `k`-th.
pub proof fn law_round_after_layer_size(v: BarrierView, lp: int, last: bool, m: nat)
    requires
        v.wf(),
        0 <= lp < v.fix.len(),
        v.val[lp] == 0,
        m <= v.fix[lp],
    ensures
        count_downs(v, lp, last, m).fix == v.fix,
        count_downs(v, lp, last, m).val.len() == v.val.len(),
        m < v.fix[lp] ==> count_downs(v, lp, last, m).val[lp] == m,
        m == v.fix[lp] ==> count_downs(v, lp, last, m).val[lp] == 0,
    decreases m,
{
    if m > 0 {
        law_round_after_layer_size(v, lp, last, (m - 1) as nat);
    }
}

} // verus!

verus! {

/// Law of enabling a layer ([`barriera::attivaLivello`]): the slots of layer `l` are
/// the `fix[l]` slots that follow the slots of the layers before it, the first layer
/// starting at slot 0; enabling the layer turns exactly those slots on and leaves the
/// others as they were.
pub proof fn law_activate_layer(check: Seq<bool>, fix: Seq<usize>, l: int, j: int)
    requires
        0 <= l < fix.len(),
        0 <= j < check.len(),
    ensures
        layer_start(fix, 0) == 0,
        layer_start(fix, l + 1) == layer_start(fix, l) + fix[l],
        activate_layer(check, fix, l).len() == check.len(),
        activate_layer(check, fix, l)[j] == (check[j] || (layer_start(fix, l) <= j < layer_start(fix, l + 1))),
{
}

} // verus!
