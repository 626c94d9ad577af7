# wl-longshot

A scrolling screenshot tool for Wayland compositors. Frames of a region are captured while its
content is scrolled, and stitched into one tall picture.

- `src/` is the library. What it does is stated in contracts and proved with Verus.
- `app/` is the program around it: the connection to the compositor, files, menus, threads.
- `tests/` runs the library on given pictures and texts.

A frame is placed by the profiles of its rows: their brightness, contrast and detail. Where these
do not tell, the edges in the rows do. A frame that is close enough to what is known makes the
picture grow at its top or its bottom; one that belongs nowhere changes nothing. A picture that
grew holds what it held before, and the rows that the frame shows beyond it.

Choices are offered by a menu program: the one asked for, or fuzzel, rofi or wofi. Where none of
them is installed, they are offered as a text on the command line.

The arithmetic of the profiles is that of single precision, done on integers in `src/single.rs`,
so that what it rounds to is part of the contracts.
