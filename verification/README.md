# WAV converter

Converts every sound below a folder to WAV, keeps the tree of folders, and puts the results into
playback order. A job can be taken back until it is committed: results that were made are removed,
and files that were overwritten come back.

The library (`src/`) decides; the program (`app/`) acts. Each operation is a course of steps: it
asks for one thing at a time (`pending`) and takes the answer (`resume`), so that the rules are
proved whatever the disk, the crates for audio or the user do.

| Module | What it holds |
| --- | --- |
| `text`, `natural`, `path` | texts, natural order, paths |
| `naming`, `plan` | names of results, track numbers, warnings, the plan of a job |
| `disk` | what is asked of the disk, and a disk on which nobody else is at work |
| `journal`, `transaction` | a job that can be taken back: its steps, and the code |
| `reversal`, `aftermath`, `delivery` | what such a job does to the disk, what it leaves behind, and what its results hold |
| `sorting`, `output_order`, `playback` | putting folders into playback order, and what that comes to |
| `convert`, `conversion` | formats, samples, and the conversion of one file |
| `control`, `worker`, `tally` | cancelling against committing; the course of a whole job, and its counts |
| `window`, `notification` | what the window shows, and the notice at the end |

Paths are Unicode text in the library. The program writes what is not Unicode in a name in
characters for private use, and turns them back when it reaches for the file.

`app/` holds the window and what touches the system: files and folders, decoding by `symphonia`,
resampling by `rubato`, writing by `hound`. Samples are floating-point numbers and stay there.
