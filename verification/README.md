# audio_learn

Audio streaming: single tracks, mixes and play lists with crossfades, played on an
output device, with callbacks at given times of the playback.

The library in `src/` decides what happens; every item of it is verified with Verus.
The program in `app/` does what talks to the world: it opens and decodes files,
resamples, runs the threads, and feeds the output device.

## The library

| Module | What it holds |
|---|---|
| `float` | rounding of exact values to a binary floating-point format, with integers |
| `sample` | single-precision samples and gains, as bit patterns |
| `seconds` | double-precision times, as bit patterns |
| `shared` | flags and counters that several threads share |
| `streamer::average` | how loud an average can be |
| `streamer::callbacks` | callbacks that run once, a given time into the playback |
| `streamer::control` | the handle that controls a streamer, and its commands |
| `streamer::device` | which configuration of an output device is used |
| `streamer::mixer` | several streamers into one |
| `streamer::playlist` | streamers one after the other |
| `streamer::single` | the playback of one track |
| `streamer::utils` | one-shot callbacks and linear fades |
| `stream_player` | the playback on an output: buffer, counters, schedule, status |

Numbers that are floating point in the audio pipeline are carried as their bit
patterns. The arithmetic on them is done with integers, and its contracts say which
rounded number comes out. Logarithmic fades and resampling are left to the program.

Functions whose name starts with `law_` prove what holds of several operations
together: that a mix loses no sample and keeps what it has while it is paused, that the
gains of a linear crossfade add up to one but for rounding, that an average is no louder
than its inputs but for rounding, that samples come out of the player in the order in
which they went in, that a callback comes up again after a seek back, that a clone of a
handle controls the same streamer, and more.

## What is trusted

Channels (`crossbeam-channel`), the ring buffer (`ringbuf`), the time of a frame count
(`symphonia`) and atomic flags and counters are called through small functions marked
`external_body`. The comment above each says what is claimed of the call.

## The program

`app/main.rs` plays a file, a play list, a mix, or an MP3 file as it is. A streamer and
the library meet in plain values: samples, times, flags and what came of a read.
