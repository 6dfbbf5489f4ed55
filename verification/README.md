# castavox-core

The parts Castavox and Pulpitry both need, as a Verus library.

Two products present very differently (one is a broadcast studio, the other a
presentation app for a projector) but underneath they do several identical
things. Those things live here once, with contracts that Verus proves.

## What belongs here

Anything that needs no opinion about its host. Nothing in `src/` opens a file, a
socket or a device, reads the environment, or knows how settings are stored: it
takes plain values and hands plain values back. (The clock is read in one place,
for a device id on a machine that has no randomness to give.) `app/` is the
ordinary Rust around it that does touch the machine.

| Module | What it is |
| --- | --- |
| `assistant` | Asking a model: addresses, bodies, answers, when to ask again |
| `audio` | Which microphone, and how it is asked to deliver |
| `canon` | Which book is which, when not every Bible agrees |
| `checkin`, `made`, `update`, `feedback` | The four small conversations with the outside |
| `commands` | Things an operator can say instead of reaching for the laptop |
| `embed` | Sentence embeddings as they are stored |
| `exports` | Markdown to text, Word and pages, with the formatting intact |
| `hosted` | A hosted subscription, from the app's side |
| `languages` | What can be spoken, and which engine can hear it |
| `library`, `packs` | Translations: downloading, installing, removing |
| `mirror` | A desk and its screens: finding, pairing, keeping in step |
| `node`, `proxy` | What a machine has, and what its network requires |
| `numbers` | Numbers as people say them out loud |
| `transcripts` | What was said, kept and searchable |
| `whisper` | Local transcription: models, pacing, what is cut where |
| `text`, `json`, `bytes`, `digest`, `order`, `random` | What the others stand on |

## How it is proved

Contracts are stated over mathematical models: texts are `Seq<char>`, lists are
`Seq`s of views, and each type with an invariant has a `well_formed`. Promises
that relate several functions are public proof functions named `law_…`.

A few functions call out to other crates (serde_json, pulldown-cmark, zip,
flate2, hmac, sha2, getrandom, reqwest's status codes) and to std (its Unicode
tables, the final component of a path, the clock). Each such call is one small
function whose doc comment says what is taken on trust; where the result takes
pages to state it has a name, and the logic that follows is a function of its
own.
