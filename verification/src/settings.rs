//! Capture parameters and how the settings view cycles through their presets.
use vstd::prelude::*;
use vstd::std_specs::cmp::PartialEqSpec;
use crate::decimal::append_decimal;
use crate::decimal::decimal_digits;
use crate::proto::ChannelMode;
use crate::proto::DEFAULT_SAMPLES_PER_PACKET;

verus! {

/// Baud rates offered in the UI. The firmware's CDC endpoint ignores the rate,
/// but the host driver still wants a plausible value.
pub const BAUD_PRESETS: [u32; 5] = [115_200, 921_600, 1_000_000, 2_000_000, 3_000_000];

/// Samples-per-packet variants worth offering.
pub const SAMPLES_PRESETS: [usize; 3] = [160, 320, 640];

/// Sample-rate override presets; `None` means "trust the sample_rate field in
/// the packet header".
pub open spec fn rate_presets_spec() -> Seq<Option<u32>> {
    seq![None, Some(16_000u32), Some(8_000u32)]
}

/// Sample-rate override presets, in the order the settings view cycles them.
pub fn rate_presets() -> (r: [Option<u32>; 3])
    ensures
        r@ == rate_presets_spec(),
{
    let r = [None, Some(16_000), Some(8_000)];
    assert(r@ =~= rate_presets_spec());
    r
}

#[derive(Debug, Clone, PartialEq, Eq)]
pub struct Settings {
    pub port: Option<String>,
    pub baud: u32,
    pub samples_per_packet: usize,
    pub channel_mode: ChannelMode,
    /// Overrides the header-reported rate when set.
    pub sample_rate_override: Option<u32>,
}

impl Default for Settings {
    fn default() -> (r: Self)
        ensures
            r.port is None,
            r.baud == BAUD_PRESETS[0],
            r.samples_per_packet == DEFAULT_SAMPLES_PER_PACKET,
            r.channel_mode == ChannelMode::Both,
            r.sample_rate_override is None,
    {
        Self {
            port: None,
            baud: BAUD_PRESETS[0],
            samples_per_packet: DEFAULT_SAMPLES_PER_PACKET,
            channel_mode: ChannelMode::Both,
            sample_rate_override: None,
        }
    }
}

/// The preset that follows `current` in `options`: the one after its first
/// occurrence, wrapping around, or the second preset when `current` is not
/// among them (the search falls back to position 0).
pub open spec fn preset_after<T>(options: Seq<T>, current: T) -> T {
    let at = match options.index_of_first(current) {
        Some(i) => i,
        None => 0,
    };
    options[(at + 1) % (options.len() as int)]
}

/// `==` on `T` is equality of values.
pub open spec fn eq_is_equality<T: PartialEq>() -> bool {
    &&& T::obeys_eq_spec()
    &&& forall|a: T, b: T| (#[trigger] a.eq_spec(&b) <==> a == b)
}

fn cycle<T: PartialEq + Copy>(options: &[T], current: &T) -> (r: T)
    requires
        options@.len() > 0,
        eq_is_equality::<T>(),
    ensures
        r == preset_after(options@, *current),
{
    let len = options.len();
    let mut at: usize = 0;
    let mut i: usize = 0;
    while i < len
        invariant_except_break
            len == options@.len(),
            i <= len,
            at == 0,
            eq_is_equality::<T>(),
            forall|j: int| 0 <= j < i ==> options@[j] != *current,
        ensures
            len == options@.len(),
            forall|j: int| 0 <= j < i ==> options@[j] != *current,
            i < len ==> at == i && options@[i as int] == *current,
            i >= len ==> at == 0 && i == len,
        decreases len - i,
    {
        if options[i] == *current {
            at = i;
            break;
        }
        i += 1;
    }
    proof {
        options@.index_of_first_ensures(*current);
        if i < len {
            assert(options@.contains(*current));
        } else {
            assert(!options@.contains(*current));
        }
    }
    options[(at + 1) % len]
}

proof fn lemma_u32_eq()
    ensures
        eq_is_equality::<u32>(),
{
}

proof fn lemma_usize_eq()
    ensures
        eq_is_equality::<usize>(),
{
}

proof fn lemma_option_u32_eq()
    ensures
        eq_is_equality::<Option<u32>>(),
{
}

impl Settings {
    pub fn cycle_baud(&mut self)
        ensures
            final(self).baud == preset_after(BAUD_PRESETS@, old(self).baud),
            final(self).port == old(self).port,
            final(self).samples_per_packet == old(self).samples_per_packet,
            final(self).channel_mode == old(self).channel_mode,
            final(self).sample_rate_override == old(self).sample_rate_override,
    {
        proof {
            lemma_u32_eq();
        }
        self.baud = cycle(&BAUD_PRESETS, &self.baud);
    }

    pub fn cycle_samples(&mut self)
        ensures
            final(self).samples_per_packet == preset_after(
                SAMPLES_PRESETS@,
                old(self).samples_per_packet,
            ),
            final(self).port == old(self).port,
            final(self).baud == old(self).baud,
            final(self).channel_mode == old(self).channel_mode,
            final(self).sample_rate_override == old(self).sample_rate_override,
    {
        proof {
            lemma_usize_eq();
        }
        self.samples_per_packet = cycle(&SAMPLES_PRESETS, &self.samples_per_packet);
    }

    pub fn cycle_rate_override(&mut self)
        ensures
            final(self).sample_rate_override == preset_after(
                rate_presets_spec(),
                old(self).sample_rate_override,
            ),
            final(self).port == old(self).port,
            final(self).baud == old(self).baud,
            final(self).samples_per_packet == old(self).samples_per_packet,
            final(self).channel_mode == old(self).channel_mode,
    {
        proof {
            lemma_option_u32_eq();
        }
        let presets = rate_presets();
        self.sample_rate_override = cycle(&presets, &self.sample_rate_override);
    }

    /// Text shown for the sample-rate setting.
    pub fn rate_override_label(&self) -> (r: String)
        ensures
            self.sample_rate_override is None ==> r@ == "自动 (读取包头)"@,
            self.sample_rate_override matches Some(rate) ==> r@ == decimal_digits(rate as nat)
                + " Hz (强制)"@,
    {
        match self.sample_rate_override {
            None => String::from_str("自动 (读取包头)"),
            Some(rate) => {
                let mut s = String::new();
                append_decimal(&mut s, rate as u64);
                s.append(" Hz (强制)");
                s
            },
        }
    }
}

/// `current` after `n` steps through `options`.
pub open spec fn preset_after_steps<T>(options: Seq<T>, current: T, n: nat) -> T
    decreases n,
{
    if n == 0 {
        current
    } else {
        preset_after(options, preset_after_steps(options, current, (n - 1) as nat))
    }
}

/// Among distinct presets, a preset is followed by the next one in the list,
/// the last one by the first.
pub proof fn lemma_preset_after_member<T>(options: Seq<T>, i: int)
    requires
        options.no_duplicates(),
        0 <= i < options.len(),
    ensures
        preset_after(options, options[i]) == options[(i + 1) % (options.len() as int)],
{
    options.index_of_first_ensures(options[i]);
    assert(options.contains(options[i]));
}

/// A value that is not among the presets is followed by the second preset,
/// as if it stood at the first position.
pub proof fn lemma_preset_after_unknown<T>(options: Seq<T>, current: T)
    requires
        options.len() > 0,
        !options.contains(current),
    ensures
        preset_after(options, current) == options[1int % (options.len() as int)],
{
    options.index_of_first_ensures(current);
}

/// Starting from a preset, `n` steps through distinct presets land `n`
/// positions further on, wrapping around.
pub proof fn lemma_preset_steps<T>(options: Seq<T>, i: int, n: nat)
    requires
        options.no_duplicates(),
        0 <= i < options.len(),
    ensures
        preset_after_steps(options, options[i], n) == options[(i + n) % (options.len() as int)],
    decreases n,
{
    let len = options.len() as int;
    if n > 0 {
        lemma_preset_steps(options, i, (n - 1) as nat);
        let j = (i + n - 1) % len;
        lemma_preset_after_member(options, j);
        vstd::arithmetic::div_mod::lemma_add_mod_noop(i + n - 1, 1, len);
        vstd::arithmetic::div_mod::lemma_mod_twice(i + n - 1, len);
        if len == 1 {
            vstd::arithmetic::div_mod::lemma_mod_self_0(len);
        } else {
            vstd::arithmetic::div_mod::lemma_small_mod(1, len as nat);
        }
    } else {
        vstd::arithmetic::div_mod::lemma_small_mod(i as nat, len as nat);
    }
}

/// After as many steps as there are distinct presets, a preset is back where
/// it started.
pub proof fn lemma_preset_cycle_wraps<T>(options: Seq<T>, i: int)
    requires
        options.no_duplicates(),
        0 <= i < options.len(),
    ensures
        preset_after_steps(options, options[i], options.len()) == options[i],
{
    let len = options.len() as int;
    lemma_preset_steps(options, i, options.len());
    vstd::arithmetic::div_mod::lemma_fundamental_div_mod_converse(i + len, len, 1, i);
}

/// The preset lists hold no value twice.
pub proof fn lemma_presets_distinct()
    ensures
        BAUD_PRESETS@.no_duplicates(),
        SAMPLES_PRESETS@.no_duplicates(),
        rate_presets_spec().no_duplicates(),
{
    assert(BAUD_PRESETS@ =~= seq![115_200u32, 921_600, 1_000_000, 2_000_000, 3_000_000]);
    assert(SAMPLES_PRESETS@ =~= seq![160usize, 320, 640]);
}

} // verus!
