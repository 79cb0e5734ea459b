# transfer-core

LocalTransfer sends text and files between devices of a local network. Devices
find each other by announcements, ask before they send files, and keep a history
of each conversation. A browser can take part without anything installed.

`src/` is the library. It holds the rules: what is said on the network, what a
request is answered, where a received file is saved, what the user sees. Its
functions are verified with [Verus](https://github.com/verus-lang/verus) against
their contracts, and the properties that span functions are the public proof
functions whose names begin with `law_`.

Eight contracts are believed without proof, because what they speak of lies
outside: those of seven small wrappers, for the clock, the time zone, random
identifiers and bytes, lower case, the list of interfaces and the QR code, and
that of `String::push`. Their doc comments say what is claimed.

| module | what it holds |
| --- | --- |
| `text`, `textmap`, `seqs` | characters, texts, maps by text |
| `paths` | paths of both kinds of systems, and which relative ones are safe |
| `ids` | random identifiers |
| `proto` | packets, messages, events, commands |
| `net` | addresses, interfaces, ports |
| `discovery` | who is there |
| `client` | which files go out, and the steps of sending them |
| `server` | messages, requests and files that come in |
| `web`, `page` | what browsers see, send and fetch |
| `store` | settings, and rows of the history |
| `engine` | commands of the user interface, one by one |
| `ui`, `chat`, `panels`, `tray` | what the user interface knows and shows |
| `startup` | arguments, further instances, ports |

`app/` is the program around it: the sockets, the files, the database, the
window. Sizes, colours, percentages and speeds on the screen are floating point
and stay there; the rules are the library's.

`tests/` runs the library from outside.
