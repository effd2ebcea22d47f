//! The built-in operator catalog: Pd vanilla objects and gen~ operators,
//! grouped under category headings, one `name - description` per line.

use vstd::prelude::*;

verus! {

/// The catalog text used when no catalog file is found.
pub const OPERATOR_CATALOG: &'static str = "Operator List\n\
    Pd Oscillators\n\
    osc~ - Cosine wave oscillator\n\
    phasor~ - Sawtooth ramp from 0 to 1\n\
    noise~ - Uniformly distributed white noise\n\
    tabosc4~ - Wavetable oscillator with 4-point interpolation\n\
    cos~ - Cosine of a phase signal\n\
    Pd Signal Math\n\
    +~ - Add signals\n\
    -~ - Subtract signals\n\
    *~ - Multiply signals\n\
    /~ - Divide signals\n\
    max~ - Larger of two signals\n\
    min~ - Smaller of two signals\n\
    clip~ - Restrict a signal to a range\n\
    wrap~ - Fractional part of a signal\n\
    abs~ - Absolute value of a signal\n\
    sqrt~ - Square root of a signal\n\
    rsqrt~ - Reciprocal square root of a signal\n\
    exp~ - Exponential of a signal\n\
    log~ - Logarithm of a signal\n\
    pow~ - Raise a signal to a power\n\
    mtof~ - MIDI pitch to frequency for signals\n\
    ftom~ - Frequency to MIDI pitch for signals\n\
    dbtorms~ - Decibels to amplitude for signals\n\
    rmstodb~ - Amplitude to decibels for signals\n\
    expr~ - Evaluate an expression on signals\n\
    Pd Filters\n\
    lop~ - One-pole low-pass filter\n\
    hip~ - One-pole high-pass filter\n\
    bp~ - Band-pass filter\n\
    vcf~ - Voltage-controlled band-pass filter\n\
    bob~ - Moog ladder filter model\n\
    biquad~ - Two-pole two-zero filter\n\
    rpole~ - Real one-pole filter\n\
    rzero~ - Real one-zero filter\n\
    rzero_rev~ - Real one-zero filter in reverse form\n\
    cpole~ - Complex one-pole filter\n\
    czero~ - Complex one-zero filter\n\
    czero_rev~ - Complex one-zero filter in reverse form\n\
    slop~ - Slew-limiting low-pass filter\n\
    Pd Delays and Tables\n\
    delwrite~ - Write a signal into a delay line\n\
    delread~ - Read a delay line at a fixed time\n\
    delread4~ - Read a delay line at a variable time\n\
    tabread~ - Read a table at signal indices\n\
    tabread4~ - Read a table with 4-point interpolation\n\
    tabwrite~ - Record a signal into a table\n\
    tabplay~ - Play a table as a signal\n\
    tabsend~ - Write each block of a signal to a table\n\
    tabreceive~ - Read each block of a signal from a table\n\
    Pd Signal Flow\n\
    sig~ - Convert a number to a signal\n\
    line~ - Linear signal ramps\n\
    vline~ - Sample-accurate linear ramps\n\
    snapshot~ - Convert a signal to a number\n\
    env~ - Envelope follower in decibels\n\
    threshold~ - Trigger on signal thresholds\n\
    samphold~ - Sample and hold\n\
    readsf~ - Stream a sound file from disk\n\
    writesf~ - Stream a signal into a sound file\n\
    dac~ - Audio output\n\
    adc~ - Audio input\n\
    send~ - Send a signal to a named bus\n\
    receive~ - Receive a signal from a named bus\n\
    throw~ - Add a signal to a summing bus\n\
    catch~ - Read and clear a summing bus\n\
    block~ - Set the block size and overlap\n\
    switch~ - Switch audio computation on and off for a patch\n\
    fft~ - Complex forward Fourier transform\n\
    ifft~ - Complex inverse Fourier transform\n\
    rfft~ - Real forward Fourier transform\n\
    rifft~ - Real inverse Fourier transform\n\
    bang~ - Output a bang after each audio cycle\n\
    Pd Messages\n\
    bang - Output a bang\n\
    float - Store a number\n\
    int - Store an integer\n\
    symbol - Store a symbol\n\
    list - Build and split lists\n\
    pack - Combine atoms into a list\n\
    unpack - Split a list into atoms\n\
    trigger - Sequence messages from right to left\n\
    route - Route messages by their first element\n\
    select - Match numbers or symbols\n\
    spigot - Pass or block messages\n\
    moses - Split numbers at a threshold\n\
    swap - Exchange two numbers\n\
    change - Pass a number only when it changes\n\
    value - Shared named variable\n\
    send - Send messages to a named receiver\n\
    receive - Receive messages sent to a name\n\
    metro - Send bangs at a regular interval\n\
    delay - Send a bang after a delay\n\
    timer - Measure elapsed logical time\n\
    pipe - Delay a stream of messages\n\
    line - Ramp numbers over time\n\
    random - Pseudo-random integers\n\
    print - Print messages to the console\n\
    loadbang - Bang when the patch loads\n\
    until - Loop until stopped\n\
    makefilename - Format a symbol with a number\n\
    expr - Evaluate an expression\n\
    notein - MIDI note input\n\
    noteout - MIDI note output\n\
    ctlin - MIDI controller input\n\
    ctlout - MIDI controller output\n\
    Pd Math\n\
    + - Add numbers\n\
    - - Subtract numbers\n\
    * - Multiply numbers\n\
    / - Divide numbers\n\
    div - Integer division\n\
    mod - Integer remainder\n\
    max - Larger of two numbers\n\
    min - Smaller of two numbers\n\
    abs - Absolute value\n\
    sqrt - Square root\n\
    exp - Exponential\n\
    log - Natural logarithm\n\
    pow - Raise to a power\n\
    sin - Sine\n\
    cos - Cosine\n\
    tan - Tangent\n\
    atan - Arctangent\n\
    atan2 - Arctangent of a quotient\n\
    mtof - MIDI pitch to frequency\n\
    ftom - Frequency to MIDI pitch\n\
    dbtorms - Decibels to amplitude\n\
    rmstodb - Amplitude to decibels\n\
    clip - Restrict a number to a range\n\
    wrap - Fractional part of a number\n\
    Gen Operators\n\
    in - Input of the gen patcher\n\
    out - Output of the gen patcher\n\
    param - Named parameter\n\
    history - Single-sample feedback delay\n\
    data - Local data buffer\n\
    buffer - Reference to an external buffer\n\
    peek - Read a buffer at an index\n\
    poke - Write a value into a buffer\n\
    sample - Interpolated buffer read by phase\n\
    cycle - Cosine wavetable oscillator\n\
    phasor - Sawtooth ramp from 0 to 1\n\
    train - Pulse train oscillator\n\
    triangle - Triangle shape of a phase\n\
    noise - White noise\n\
    mix - Linear interpolation between two inputs\n\
    scale - Map one range onto another\n\
    clamp - Restrict a value to a range\n\
    fold - Fold a value into a range\n\
    latch - Sample and hold on a trigger\n\
    delta - Difference from the previous sample\n\
    accum - Accumulate the input\n\
    counter - Count up to a limit\n\
    slide - Logarithmic smoothing\n\
    dcblock - Remove a constant offset\n\
    mstosamps - Milliseconds to samples\n\
    sampstoms - Samples to milliseconds\n\
    atodb - Amplitude to decibels\n\
    dbtoa - Decibels to amplitude\n\
    selector - Choose one of several inputs\n\
    gate - Route an input to one of several outputs\n\
    switch - Choose between two inputs by a condition\n\
    elapsed - Samples since the patch started\n\
    samplerate - Current sample rate\n\
    vectorsize - Current vector size\n\
    pi - The constant pi\n\
    twopi - The constant two pi\n\
    Gen Vectors\n\
    vec - Build a vector from components\n\
    swiz - Reorder or select vector components\n\
    concat - Join two vectors\n\
    length - Length of a vector\n\
    normalize - Scale a vector to unit length\n\
    dot - Dot product of two vectors\n\
    cross - Cross product of two vectors\n\
    reflect - Reflect a vector about a normal\n\
    refract - Refract a vector through a surface\n\
    rotor - Rotation between two vectors\n\
    qmul - Product of two quaternions\n\
    qrot - Rotate a vector by a quaternion\n\
    qconj - Conjugate of a quaternion\n\
    norm - Normalised coordinates of the cell\n\
    cell - Integer coordinates of the cell\n\
    dim - Dimensions of the matrix\n\
    nearest - Nearest-neighbour sample of a matrix\n\
    interp - Interpolated sample of a matrix\n";

} // verus!
