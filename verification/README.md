# Photo2Cull

A desktop app for quickly culling a folder of photos down to your keepers: point it at a folder, it scores every photo, and you decide what survives. What it decides and computes in whole numbers is a library verified with Verus. Around it are the window, the disk, and the detection models with their floating-point arithmetic; picture and RAW formats are read by the `image` and `rawler` crates, which the library calls.

## What it does

- Scans one or more folders (subfolders included) of RAW or standard photos (PNG, JPG, TIFF, BMP, WebP) and scores each one for focus sharpness (variance of the Laplacian).
- Classifies each photo as Landscape, Portrait, Animal or Object, automatically or by hand, and scores the region that matters.
- Ranks photos with an Overall score that blends six factors with adjustable weights.
- Groups duplicates and bursts by perceptual hash, and marks the best of each group.
- Runs a funnel: technical cull, dedupe, rank by Overall, shortlist.
- Lets you override disqualification by hand, select like in a file manager, and magnify thumbnails under the pointer.
- Moves disqualified photos into a `disqualified` folder of the chosen folder each came from, keeping its subfolders.

## Layout

- `src/` is the verified library.
  - `fixed`, `stats`, `select`, `rank`: exact arithmetic, sums, index lists, stable ranking.
  - `raster`: pictures as plain values, and the operations of `image` and `imageproc` on them.
  - `path`, `photo`, `raw`: which files are photos, and how they are decoded and come upright and to size.
  - `sharpness`, `metrics`: the scores.
  - `classify`, `animal`: what the detection models are shown, and what their output means.
  - `dedupe`, `pipeline`: hashes, groups of duplicates, the funnel.
  - `scan`: which files a scan takes, how a photo is appraised, where rejects go.
  - `app`, `culling`, `selection`, `preview`, `listing`: the session's state, and what each event and click does to it.
- `tests/` runs the library.
- `app/` is the program: the window, threads, files and models. It reads the two ONNX models (`version-RFB-320.onnx`, `yolox_nano.onnx`) from `assets/models` beside the program.

## Numbers

Scores are whole billionths of a point, box coordinates whole sub-pixels (65536 to the pixel), model numbers and confidences whole multiples of 2^-32, weights whole millionths. All arithmetic on them is exact up to the roundings that the contracts state.
