# MyAILocalModel

A local AI model advisor and launcher: it looks at the machine, searches Hugging Face for GGUF
files, says which of them suit the machine and why, downloads the chosen one, and runs it with a
local llama.cpp server.

## Layout

- `src/` is the library, verified with Verus.
  - `hardware`: what the machine offers, and the settings that follow.
  - `catalog`: the search of the hub and the candidates in its answer.
  - `scoring`, `scoring_laws`, `ranking`: what a candidate comes to, what holds of the scores, and
    the order in which recommendations are shown.
  - `download`, `place`: the steps of a download, and where its file lies.
  - `runtime`, `launch`, `chat`: the local server, its launch, and questions to it.
  - `double`, `rounding`, `order`, `natural`, `decimal`: binary64 numbers as bit patterns, their
    exact arithmetic, how it keeps their order, and their decimal text.
  - `text`: text as sequences of characters.
- `tests/` runs the library, among other things against the machine's own floating point.
- `app/` is the desktop application around the library: commands, network, files, processes.

The steps of a download, of a launch and of waiting for the server are state machines: the
application performs the action that it is given and reports what came of it.

Downloaded models are stored under the application's data folder. A file name that would lead
out of it is refused before anything is created or asked for.

The lock that guards the kept server is the application's. It tells the library whether the lock is
poisoned, and the library says what follows.

## What is trusted

- `String::push`, `str::to_lowercase` and `str::to_uppercase` of the standard library;
- the first group of two patterns, by the `regex` crate;
- the address of a search, by the `url` crate as `reqwest` exports it.

The decimal logarithm of a number of downloads is an argument of the library: the application
computes it in floating point.
