# hydra

The decision logic of a multi-connection download manager, written and proved
in Verus. The library decides; the application around it reads, writes and
waits.

| Module | What it decides |
|---|---|
| `text`, `bytes`, `encode` | trimming, splitting, numbers, line ends, Base64, percent escapes |
| `error` | the failures of a request, and the redirect one may carry |
| `head`, `request`, `chunked` | response heads, request heads, chunked bodies |
| `probe` | what is known of an object before it is fetched |
| `object`, `range` | whole objects and byte ranges, connection reuse, retries |
| `download` | redirects, resuming, the plan and the end of a download, FTP |
| `stream`, `record` | assembling adaptive streams, recording live ones |
| `engine` | commands, events, and the table of running transfers |
| `i18n`, `windows` | translations, and what the dialogs show |
| `autostart`, `completions` | the login item, and shell completion scripts |

`law_*` functions state what holds across several calls: that reads of a
chunked body may split anywhere, that chunks come out as they were sent, that a
pooled connection has nothing of its response left in it, that bytes of another
object are never kept, that a paused track carries on to the same file, that no
segment of a live stream goes missing unnoticed.

`app/` holds the sockets, files, threads and windows. The connector, the range
scheduler, FTP and the stream formats come in through the traits of
`app/kit.rs`.
