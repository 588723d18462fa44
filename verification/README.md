# Scene Engine

Agent-authored video, timed by words. Write a `.scene` document (script,
tracks, anchored elements) and the `engine` binary compiles it into an mp4.
Rewrite a line and the composition re-times itself.

```xml
<scene canvas="1080x1920" fps="30" clear="#0e0e12">
  <script track="voice">
    <line id="hook">Nobody talks about the third rule.</line>
    <line id="payoff">Compound interest is a treadmill.</line>
  </script>
  <track kind="visual" anchor="voice">
    <captions anchor="voice.words"/>
    <board during="payoff" at="center" anim="rise">
      <text bind="payoff.text"/>
    </board>
  </track>
  <render target="out/final.mp4"/>
</scene>
```

## Layout

- `src/` is the library, verified with Verus: the grammar of scenes and of
  anchors, lowering and its findings, alignment, layout, the audio mix, shot
  detection and drafts, path confinement, process deadlines, the stages of a
  render, capabilities, and the decisions of the command line and of the test
  page. Every function states what it returns; what spans several functions is
  a public proof function.
- `app/` is the `engine` binary around it: arguments, files, sockets,
  processes, JSON and TOML documents, and the floating-point texts that ffmpeg
  takes.
- `tests/` runs the library on concrete scenes, requests and tool outputs.

## Numbers

Authored numbers are exact decimals (`number`). Layout counts in fixed parts of
a pixel, easing curves are exact fractions, shot scores are integers over a
common scale, cut times are microseconds. Machine floats appear only in `app/`.

## What is trusted

`serde_json` (reading and quoting JSON text), `str::to_lowercase`,
`String::from_utf8_lossy` and `String::push`: each stands behind one declaration
whose doc comment says what is claimed of it.
