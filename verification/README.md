# track_local

The forwarding core of a local RTP track, written and proved in Verus: packets of one
source go out to any number of receivers under one uninterrupted numbering, recent
packets are kept for retransmission, and the bitrate asked of the source follows the
measured bitrate and the reported losses.

| Module | What it holds |
| --- | --- |
| `track_state` | Renumbering of packets over switches and pauses of the source. |
| `packet_cache` | The two retransmission caches. |
| `bitrate_state`, `loss_stats` | What sender and receiver reports come to. |
| `packet`, `octets`, `header_extension` | Packets and their header extensions. |
| `codec` | Codecs, their kinds and their largest bitrates. |
| `binding`, `bindings`, `track_bindings` | The receivers of a track. |
| `track_local_static_rtp` | The track itself. |
| `forwarding`, `write_plan` | What is sent to whom, and what becomes of it. |
| `bitrate_control` | Key frame requests and the target bitrate. |
| `sequence_tag` | A tag that marks test traffic. |
| `clock` | The clocks that are read. |

Functions whose names begin with `law_` state properties that span several operations.
Functions marked `external_body` call other crates; their contracts are taken on trust.

`app/` puts a track behind a lock, performs the reads and sends, and computes the one
quotient that needs floating point.
