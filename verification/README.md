# game_bot

Helper for a game that runs in an emulator window: it reads the screen, picks up wanted
items, attacks wanted monsters, and otherwise walks to random places by way of the large
map.

`src/` is the decision core, written in Verus. It takes what was read from the screen and
says what to do. Verus proves the contracts of its functions, except for those of the few
calls into other code, which it believes without proof:

- `edits::levenshtein`: the edit distance of `strsim::levenshtein`;
- `util::checked_rgb_buffer`: which buffers `image::RgbImage::from_raw` accepts, and that
  `image::RgbImage::into_raw` hands them back;
- `map_nav::random_below`: the range of `rand`'s `gen_range`;
- `find_window::lowercase`: that `str::to_lowercase` depends on its text alone;
- `String::push` in `text`: that it appends a character.

The modules:

- `rounding`, `double`, `distance`, `score`, `geometry`, `screen`: calibration values,
  distances, scores and pixel arithmetic, rounded exactly as floating-point hardware rounds them.
- `text`, `edits`, `whitelist`: texts, edit distance, and tolerant search for names.
- `text_ocr`, `item_ocr`, `monster_detector`, `monster_matcher`, `position_reader`,
  `map_matcher`, `match_icon`, `best_match`: what is made of a frame.
- `startup`, `game_status`, `bot_loop`, `map_nav`, `app`, `asset_loader`, `find_window`,
  `quit_game_bot`, `test_modes`, `clock`, `util`: the session and its rules.
- `recognition_report`: how well the monster templates work.

`app/` is the program around it: window, mouse, keyboard, OpenCV, text recogniser, files.
`tests/` runs the library on concrete values.
