# rusty_h265

The verified core of an HEVC / H.265 video decoder (Main, Main 10 and Main Still
Picture, 4:2:0, 8 and 10 bit), written in Verus. The functions of `src/` carry
contracts, a few of them through the trait that they implement, and Verus proves
these with one exception: the contract of `share::share` is trusted.

What is here:

| module | contents |
| --- | --- |
| `stream`, `decoder` | NAL dispatch, parameter-set activation, picture boundaries, output |
| `dpb`, `rps`, `reflists` | picture order count, reference marking, bumping, reference lists |
| `cabac`, `residual`, `ctu` | arithmetic decoding, residual coding, transform trees |
| `recon`, `pixel`, `mcscratch` | intra reference samples, residual parameters and sums, padding, weighted prediction |
| `deblock`, `filters`, `sao` | the in-loop filters |
| `pic`, `frame`, `tables` | per-picture state, sample storage and output bytes, scan and transform tables |
| `nal`, `ps`, `slice`, `error` | the parsed syntax the decoder decides by, and its errors |
| `validity` | run-time checks of what the decoder requires of parsed values |
| `arith`, `share` | integer helpers, shared handles |

A bitstream parser hands NAL units to the decoder with their parsed contents. A
slice that is to be reconstructed comes back as a task, frames come out in output
order, and `Error::Again` means "feed more input":

```rust
let mut dec = Decoder::new();
if dec.accepts(&unit) {
    if let Some(task) = dec.push_nal(unit, pts)? {
        let mut picture = dec.lend_picture().unwrap();
        let result = reconstruct(&mut picture, &task);
        dec.return_picture(picture);
        dec.finish_slice(result)?;
    }
}
dec.flush();
while let Ok(frame) = dec.next_frame() {
    frame.write_yuv(&mut bytes);
}
```

`app/` is the command-line driver around the library, over a front end that
parses and reconstructs. `share::share`, the only trusted item, clones a shared
handle.
