//! Tone arithmetic: transposition, the frequency table and the conversion of a
//! frequency into the half-period delay that the firmware toggles a pin with.

use vstd::prelude::*;

verus! {

/// Lowest tone that can be played (C1).
pub const LOWEST_TONE: u8 = 24;

/// Highest tone that can be played (B7).
pub const HIGHEST_TONE: u8 = 107;

/// Frequencies in hertz of the tones from C1 to B7, one row per tone.
pub const NOTE_FREQS: [u16; 84] = [
    33, 35, 37, 39, 41, 44, 46, 49, 52, 55, 58, 62,
    65, 69, 73, 78, 82, 87, 93, 98, 104, 110, 117, 123,
    131, 139, 147, 156, 165, 175, 185, 196, 208, 220, 233, 247,
    262, 277, 294, 311, 330, 349, 370, 392, 415, 440, 466, 494,
    523, 554, 587, 622, 659, 698, 740, 784, 831, 880, 932, 988,
    1047, 1109, 1175, 1245, 1319, 1397, 1480, 1568, 1661, 1760, 1865, 1976,
    2093, 2217, 2349, 2489, 2637, 2794, 2960, 3136, 3322, 3520, 3729, 3951,
];

/// Why a tone cannot be played.
#[derive(Clone, Copy, Debug, PartialEq, Eq, Structural)]
pub enum PlayError {
    /// The tone, after transposition if any, lies outside C1..=B7.
    OutOfRange { tone: i16 },
}

/// Whether `tone` is one of the 84 playable tones.
pub open spec fn in_range(tone: int) -> bool {
    24 <= tone <= 107
}

/// The tone `octaves` whole octaves above `midi_code`.
pub open spec fn transposed(midi_code: u8, octaves: i8) -> int {
    midi_code as int + 12 * (octaves as int)
}

/// The frequency in row `row` of the table.
pub open spec fn table_freq(row: int) -> u16
    recommends
        0 <= row < 84,
{
    NOTE_FREQS@[row]
}

/// The tabulated frequency of `note`, if it is playable.
pub open spec fn freq_of(note: int) -> Option<u16> {
    if in_range(note) {
        Some(table_freq(note - 24))
    } else {
        None
    }
}

/// The half-period in microseconds of a square wave of `freq` hertz, capped at
/// what sixteen bits hold; frequency 0 stands for silence and maps to delay 0.
pub open spec fn delay_of(freq: u16) -> u16 {
    if freq == 0 {
        0
    } else if 500_000int / (freq as int) > 65_535 {
        65_535
    } else {
        (500_000int / (freq as int)) as u16
    }
}

/// Moves a tone by whole octaves, rejecting results outside C1..=B7.
pub fn transpose(midi_code: u8, octaves: i8) -> (r: Result<u8, PlayError>)
    ensures
        in_range(transposed(midi_code, octaves)) ==> r == Ok::<u8, PlayError>(
            transposed(midi_code, octaves) as u8,
        ),
        !in_range(transposed(midi_code, octaves)) ==> r == Err::<u8, PlayError>(
            (PlayError::OutOfRange { tone: transposed(midi_code, octaves) as i16 }),
        ),
{
    let result: i16 = (midi_code as i16) + (octaves as i16) * 12;
    if 24 <= result && result <= 107 {
        Ok(result as u8)
    } else {
        Err(PlayError::OutOfRange { tone: result })
    }
}

/// Looks a tone up in the frequency table.
pub fn midi_code_to_freq(note: u8) -> (r: Option<u16>)
    ensures
        r == freq_of(note as int),
{
    if LOWEST_TONE <= note && note <= HIGHEST_TONE {
        Some(NOTE_FREQS[(note - LOWEST_TONE) as usize])
    } else {
        None
    }
}

/// Converts a frequency in hertz into the firmware's half-period delay.
pub fn freq_to_delay(freq: u16) -> (r: u16)
    ensures
        r == delay_of(freq),
        freq == 0 ==> r == 0,
{
    if freq == 0 {
        return 0;
    }
    let half_period: u32 = 500_000 / (freq as u32);
    if half_period > 65_535 {
        65_535
    } else {
        half_period as u16
    }
}

/// Transposing a tone and looking the result up reads the table `12 * octaves`
/// rows further on.
pub proof fn lemma_transposed_freq(midi_code: u8, octaves: i8)
    requires
        in_range(transposed(midi_code, octaves)),
    ensures
        freq_of(transposed(midi_code, octaves)) == Some(
            table_freq(midi_code as int - 24 + 12 * (octaves as int)),
        ),
{
}

/// The delay sent for a tone never grows as the tone rises.
pub proof fn lemma_delay_non_increasing(low: int, high: int)
    requires
        24 <= low <= high <= 107,
    ensures
        delay_of(freq_of(high).unwrap()) <= delay_of(freq_of(low).unwrap()),
{
    lemma_table_increasing(low - 24, high - 24);
    let a = table_freq(low - 24) as int;
    let b = table_freq(high - 24) as int;
    assert(500_000int / b <= 500_000int / a) by (nonlinear_arith)
        requires
            0 < a <= b,
    ;
}

/// Frequencies in the table rise with the row.
pub proof fn lemma_table_increasing(i: int, j: int)
    requires
        0 <= i <= j < 84,
    ensures
        33 <= table_freq(i) <= table_freq(j) <= 3951,
    decreases j - i,
{
    if i < j {
        lemma_table_increasing(i + 1, j);
    }
}

} // verus!
