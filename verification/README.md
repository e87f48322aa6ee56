# vban_common

Wire types and parser for the VBAN protocol, verified with Verus. No sockets,
no threads, no I/O.

VBAN is VB-Audio's audio over UDP protocol. One packet layout carries four
sub-protocols, selected by the top three bits of the first format byte.

## What it covers

- The 28 byte header, read and written (`header`)
- Whole packets and the headers of what we send (`packet`)
- SERVICE packets: ping, pong, and RT subscription (`packet`, `pong`)
- TEXT requests, the control channel: `Strip[0].Gain=-6.0;Bus[1].Mute=1`
  (`parameter`)
- The RT state packet, 1412 bytes at fixed offsets (`rt`)

AUDIO and SERIAL are recognised and declined rather than parsed.

## How it is laid out

`bytes`, `text` and `number` hold what the others are made of: numbers and
padded fields on the wire, trimming and case, and numbers in a request. Each
module gives its layout as a value first, and then the functions that read and
write it, proved to do so. What holds of writing and reading together is
proved in functions whose names start with `law_`.

The library holds no floating point. Levels and gains are whole hundredths of
a decibel, and `app/` turns decibels as `f32` into them.

Two functions of the standard library are taken at their word, both in `text`:
`String::from_utf8_lossy` and `str::to_ascii_lowercase`.

## What it does not do

It knows that `Strip[0].Gain` addresses field `gain` of strip 0. It does not
know what a gain is, whether it is decibels, or what changing it should do.
That belongs to the application.

## License

Public domain.
