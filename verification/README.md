# murmur

Local voice input: hold the right `Ctrl` (or `Fn`), talk, release it, and what was said is
recognised, refined by a language model, and typed where the cursor stands.

`src/` is the logic, written in Verus. It has no devices, models, windows or threads: its
parts decide what is to be done with them and are told what came of it.

| module | what it decides |
| --- | --- |
| `app` | what the application does and shows, upon the key, the recorder, the recogniser and the menu |
| `pipeline` | when a recording begins and ends, and which audio is handed on |
| `recorder`, `tray`, `hotkey`, `args` | devices, the menu, the key to talk, the command line |
| `audio` | how audio is walked through, and how channels are brought down to one |
| `hub` | which model files are downloaded, and how far that is |
| `recognizer` | loading the models, and the course of one recognition |
| `refiner` | cutting a transcript, the prompts, the dialogue with the language model, its cache |
| `text` | operations on characters |

`app/` is the program around it: audio devices, inference, the window, the tray icon, and the
signal processing on floating-point samples. `tests/` runs the library.
