use ascii_world::anim::{write_gif_to, AnimError};
use ascii_world::charset::{resolve, Charset, NAMED};
use ascii_world::engine::{convert, Options, DEFAULT_ALPHA_THRESHOLD};
use ascii_world::float::Single;
use ascii_world::font::FontStack;
use ascii_world::input::{decode_frames, is_svg, svg_job, svg_target_px, Drawing, Frame};
use ascii_world::mcp::{
    answer_call, finish_call, handle, refuse_call, serve_line, Action, Params,
};
use ascii_world::paint::{paint_png, Background, PaintOptions};
use ascii_world::pipeline::{
    describe_charset, note_clamped_width, render_animation, run_charsets, run_img, run_txt,
    txt_options, CommonArgs, Picture, PipelineError, RenderArgs, Renderer, TxtArgs,
};
use ascii_world::pixels::RgbaImage;
use ascii_world::render::{to_json, to_text};
use ascii_world::float::Double;
use ascii_world::video::{
    convert_frame, Failure, Session, Spec, Stats, VideoError, VideoOptions,
};
use ascii_world::web::{charset_names, image_to_ascii, image_to_json, version};
use resvg::{tiny_skia, usvg};

/// A subset of a monospace font (printable ASCII and block elements), in Base64.
const MONO: &str = "\
    AAEAAAAHABAAAAAAY21hcAAAAAAAAAB8AAAATGdseWYAAAAAAAAAyAAAHxhoZWFkAAAAAAAAH+AAAAA2aGhlYQAAAAAA\
    ACAYAAAAJGhtdHgAAAAAAAAgPAAAAZBsb2NhAAAAAAAAIcwAAAGUbWF4cAAAAAAAACNgAAAAIAAAAAEAAwABAAAADAAE\
    AEAAAAAMAAAAAAAAAH4liCWRJZIlk///AAAAICWIJZElkiWT////4drY2tLa0NrOAAEAAAAAAAAAAAAAAAAAAgBo/pYE\
    aAWkAAMABwAAExEhESUhESFoBAD8cwMb/OX+lgcO+PJyBikAAAACAeMAAALuBdUAAwAJAAABIREhESERAyMDAeMBC/71\
    AQshxyMBG/7lBdX9cf6bAWUAAAAAAgDnA6oD5wXVAAMABwAAAREhESERIRED5/8A/wD/AAXV/dUCK/3VAisAAAACAAIA\
    AATNBb4AGwAfAAABAzMTMwMzFSMDMxUhAyMTIwMjEyM1IRMjNSETASMDMwLDX8te4GHB9krN/v5e3V7NXt1ezwEEStsB\
    El4BFc1KzQW+/ooBdv6K1/7b1/6LAXX+iwF11wEl1wF2/bP+2wAAAAAAAAMApP7TBEQGFAAGAA0ALwAAARE+ATU0JgMR\
    DgEVFBYTIwMuAScRHgEXES4BNTQ2NzUzFx4BFxEuAScRHgEVFAYHArY/RkXNPj8/y40BV75nZ8FVxcDMuY0BR5lQPphb\
    xcnZtAIQ/tIJTz0+TwEtARsIQzo5TPuRAS0DLisBBj1CAQFJJ7+dp8YM7e0EHBn/ACgwBv7NH8+spNIJAAUAIQAABMMF\
    mAALABcAGwAnADMAABM0NjMyFhUUBiMiJgEiBhUUFjMyNjU0JgkBFwEFNDYzMhYVFAYjIiYBIgYVFBYzMjY1NCYhuoWF\
    u7uFhboBPzlQUDk6T1D+vQQSKfvoAcu5hoS8vISGuQE9OE9OOTpRUgRYhrq7hYW6uQEPTzo6T086OVD9UAGiYP5ekoa6\
    u4WEu7kBEFA6Ok9QOTlRAAAAAgAl/+ME0wXwACoAOAAAJQ4BIyIANTQ2Ny4BNTQ2MzIWFxEuASMiBhUUFhcBPgE1NCYn\
    MxUUBgcXIQEOARUUFjMyNjc2NzY3A2ZLqVfg/uqNizIw2s5JjERAg0FQUj1EATkVFgQE60RJov7D/iJCQ51yHDscAgYd\
    EkgyMwEG0ZHuWE6FPKKuFhX/ACQlODYkfmb+ICZiOR45GTOR2Vb2Atsrd0l6pw0MAQMODAAAAAABAecDqgLnBdUAAwAA\
    AREhEQLn/wAF1f3VAisAAAAAAAEBf/7yA5wGEgANAAABBgIVFBIXIyYCNTQSNwOchICAhOSfmpueBhLv/kDg3v498OcB\
    wenoAcPkAAAAAAEBNf7yA1IGEgANAAABMxYSFRQCByM2EjU0AgE15J6bmp/khICABhLk/j3o6f4/5/ABw97gAcAAAAAA\
    AAEAeQI5BFQF8AARAAABDQEHJREjEQUnLQE3BREzESUEVP62AUpM/rSs/rVMAUz+tEwBS6wBTATBra6NuP6oAVi4ja6t\
    jbYBWP6otgAAAAAAAQBCAFwEjQSoAAsAAAERIRUhESMRITUhEQLfAa7+Uu3+UAGwBKj+Uu7+UAGw7gGuAAAAAAEBav7h\
    AwYBbwAFAAABIREDIxMBzQE5xNhjAW/+8f6BAX8AAAAAAAABAS0BvAOkAt8AAwAAASERIQEtAnf9iQLf/t0AAQHBAAAD\
    DgFvAAMAAAEhESEBwQFN/rMBb/6RAAEAcf9CBGAF1QADAAABMwEjA4Pd/O7dBdX5bQAAAAAAAwB7/+MEVgXwAAsAFwAj\
    AAABNDYzMhYVFAYjIiYTIgYREBYzMjYRECYBEBIzMhIREAIjIgIB7Eg0NUhINTRIfGZeXmZnXl79rPb3+Pb2+Pf2Auk1\
    SEg1NEhHAkL6/u3+7vr6ARIBE/r98wGEAYP+fv57/nz+fgGDAAAAAAEAvAAABG8F1QAKAAATIREFESUhESERIbwBSv7N\
    ATUBHQFK/E0BBAPJTAEKSvsv/vwAAAABAHMAAAQnBfAAHQAAASERITU3ADc+ATU0JiMiBgcRPgEzMgQVFAYHBgcGAbIC\
    dfxMoAEdPUtCeW9PxWtrzV7tAQ87SDXugQEE/vz8qgEvRlaFQWRtPzwBEycp3b9Yml5E7oEAAAAAAAEAff/jBEwF8AAo\
    AAABIxEzMjY1NCYjIgYHET4BMzIEFRQGBx4BFRQEISImJxEeATMyNjU0JgIlnp5ueXluVMBnZ8hc7AEImI2gqP7q/vdx\
    22Re2nh4jIwCnAEEV09TXSooAQwfIc61hakaHMei2eQmJAESLzFvXnN9AAAAAAAAAgBmAAAEdQXVAAIADQAACQEhAyER\
    MxUjESERIRECtv6HAXkaATWkpP7l/bAEjf2yA5b8av3+vgFCAR4AAAAAAAEAj//jBEYF1QAdAAATIREhET4BMzIAFRQA\
    ISImJxEeATMyNjU0JiMiBgfBAyv9xCRSLt4BFP7V/v5gxGZTr1icoqGGT59RBdX+/P7rDg3+6ODr/u8gIAEKKSmFf3WN\
    JycAAAACAIP/4QRiBe4ACwAkAAABIgYVFBYzMjY1NCYBES4BIyIGBz4BMzIWFRQCIyACERAAITIWAoNgZWVgYGdnASNP\
    kUOgpwQvkmPK3Pfg/u/3AS4BLkaVAuyLhIOLi4ODjALG/vQtLdfSQUH/6vv+7AFuAZgBhAGDHgAAAAAAAQCHAAAENwXV\
    AAYAABMhFQEhASGHA7D+Bv7TAeb9kQXV0fr8BNEAAAMAgf/jBFAF8AALACMALwAAASIGFRQWMzI2NTQmJS4BNTQ2MzIW\
    FRQGBx4BFRQGIyImNTQ2ExQWMzI2NTQmIyIGAmhjenpjY3t6/sFxdvLQ0fJ0b3yM/urp/o6dZVdYZWVYVmYCmn1nZ36A\
    ZWd9fSenebrY2Lp4pygmxInX6urXisQBVFhnZ1hXZWYAAgBv/9kETgXjABgAJAAANxEeATMyNjcOASMiAjU0EjMgEhEQ\
    ACEiJgEyNjU0JiMiBhUUFstPkUOfpwUvkmTJ3PbhARH3/tL+0kaVATdfZWVfYGdnFAENLizV1EFBAP/q+gES/pP+af59\
    /n0eAu6LhIOLi4ODjAAAAAAAAAIBwQAAAw4EJwADAAcAAAEhESERIREhAcEBTf6zAU3+swQn/pP+tf6RAAAAAgFz/uED\
    DgQnAAUACQAAASERAyMTESERIQHBAU3E104BTf6zAW/+8f6BAX8Dx/6TAAAAAAEAWABtBHkEmAAGAAAJAhUBNQEEefzl\
    Axv73wQhA57+4/7l+QGf7AGgAAAAAAAAAAIAWAEnBHkD2wADAAcAABMhFSERIRUhWAQh+98EIfvfAhTtArTrAAABAFgA\
    bQR5BJgABgAAEzUBFQE1AVgEIfvfAxsDnvr+YOz+YfkBGwAAAAAAAAIA6QAABCkF8AADACQAAAEhESEBITU0Nj8BPgE1\
    NCYjIgYHET4BMzIWFRQGDwEOARUUBgcBuAEL/vUBC/71PlBaPy1cXFS3YGLJZcrmRF5YRCYBAQEb/uUBkZpjjE5ZPVAr\
    Q0RHRgEMODm8pUyDXFZCVD0JGA4AAAIABv7BBIcFcwALADQAAAE0JiMiBhUUFjMyNhMjNQ4BIyImNTQ2MzIWFzU0JiMi\
    ABEQADMyNjcXDgEjIAAREAAhMhIVA81mWVllZVlZZrrEJmdIpMnIpUdsIpWK0P75ATD9UJZFXFG/bf6i/mABdgE02v0C\
    IXGAgHFygID+2FI1MezCwesxLymIlP6S/tv+zf6VLy+wNzcB0gGMAYMB0f754wAAAgAhAAAEsAXVAAIACgAAAQMhASEB\
    IQMhAyECaIsBF/7AAWkBk/7ZXP51Wv7ZBMf9nQNx+isBcf6PAAAAAwB9AAAEhwXXAAgAEQAgAAABETMyNjU0JiMDETMy\
    NjU0JiMlITIWFRQGBx4BFRQEKQEBmsSNcXaIxMRwX2Fu/h8B4fn7lI+rrf78/tv+HwKm/kZgd3lqAkb+pVBcXFPrvbyQ\
    og0RxLDYwgAAAAAAAAEAmP/jBDkF8AAZAAAlDgEjIAAREAAhMhYXES4BIyICFRQSMzI2NwQ5RppV/tL+wgE+AS5VnERM\
    j0yipaWiTI9MKyQkAY4BeAF5AY4kJP64RkH+//38/v9BRgAAAAAAAAIAiQAABHUF1QAIABEAAAERMzI2ERAmIwEhIAAR\
    EAApAQGwUK6UlK7+iQE8AW4BQv6+/pL+xATL/D/bAQcBBdoBCv6j/nT+c/6hAAABAKgAAARKBdUACwAAKQERIREhESER\
    IREhBEr8XgOi/YUCP/3BAnsF1f78/r7+/P55AAAAAQC2AAAEWAXVAAkAAAEhESERIREhESEEWP2FAkL9vv7ZA6IE0f6+\
    /vz9dQXVAAAAAQB1/+MEagXwAB0AAAERIzUhEQ4BIyAAERAAITIWFxEuASMiBhEUEjMyNgNoygHMVc11/t7+xAE/AS1a\
    rkw+oWCopqCZLkQBDgEd+P1USUsBkwFzAXkBjjMw/rlQUf3+//n+/BEAAAAAAAAAAQCJAAAESAXVAAsAABMhESERIREh\
    ESERIYkBJwFxASf+2f6P/tkF1f3HAjn6KwKY/WgAAAAAAAABAKwAAAQlBdUACwAAExEhESERIREhESERrAN5/tcBKfyH\
    ASkE0QEE/vz8M/78AQQDzQAAAAAAAAEAbf/jA/AF1QARAAA3ER4BMzI2NREhESEREAYhIiZtVsNjdGz+lwKQ5f75X89K\
    AVZYXHR/AvIBBPwK/u/rNAAAAAAAAQB1AAAEyQXVAAsAABMhEQEhCQEhAQcRIXUBJwHOAU7+KQHo/rj+noP+2QXV/bIC\
    Tv20/HcCoKb+BgAAAQDhAAAEfwXVAAUAADMRIREhEeEBJwJ3BdX7L/78AAABAFYAAAR7BdUADAAAEyEbASERIxEDIwMR\
    I1YBYLKxAWL+nuug/gXV/XECj/orBKz9cwKN+1QAAAEAdwAABFgF1QAJAAATIQERIREhAREhdwE9AaABBP7F/l7+/AXV\
    +8MEPforBD37wwAAAAACAFz/4wR1BfAACwAXAAABIgYREBYzMjYRECYBEAAhIAAREAAhIAACaHFoaHFyaGj9ggEJAQMB\
    BAEJ/vf+/P79/vcE5/H+8/708fEBDAEN8f4CAX8BiP54/oH+gv54AYgAAAAAAgCiAAAEewXVAAgAEwAAAREzMjY1NCYj\
    JSEgBBUUBCEjESEByXmRdXWR/mABlQE1AQ/+8f7Lbv7ZBN3+SmJ5eWL43Pf33P3RAAAAAAIAXP7nBHUF8AARAB0AAAUO\
    ASMgABEQACEgABEQAgcXBwEiBhEQFjMyNhEQJgKQDhMJ/v/+9wEJAQMBBAEJfni6yv75cWhocXJoaBcDAwGIAX4BfwGI\
    /nj+gf75/p1MtpYGAPH+8/708fEBDAEN8QACAIUAAATRBdUAFAAdAAABHgEXASEDJicmKwERIREhIBYVFAYBETMyNjU0\
    JiMDJyxBLwEO/ry0CA1Pa17+2QGqASD7lv34i3lpaHoCwQlBXv3nAXkQHKn9sgXVzOaatgIK/mlfbW1eAAAAAAABAIH/\
    4wRWBfAAJwAAAS4BNTQkMzIWFxEuASMiBhUUFh8BHgEVFAQhIiYnER4BMzI2NTQmJwH+354BBONnzmVfxGBrclOEf7Sq\
    /vX+8m/faHbdbG14UEwCj1W7nsvoLy7+4ENGVlA+UTEwQtqm4t81NAExVFJjWUNlHQAAAQBaAAAEdwXVAAcAACkBESER\
    IREhAvz+2f6FBB3+hQTTAQL+/gAAAAEAav/jBGYF1QARAAATESERFBYzMjY1ESEREAIhIAJqASdyZWVyASfy/vT+9fMC\
    JwOu/Ahwf39wA/j8Uv7Q/uwBFAAAAAAAAAEAOQAABJgF1QAGAAAlASEBIQEhAmgBBwEp/p3+Z/6dASn2BN/6KwXVAAAA\
    AQAAAAAE0QXVAAwAABEhGwEzGwEhAyELASEBAmuB9ZZUAQSs/u2qn/7vBdX7uALF/TsESPorAxD88AAAAQAbAAAEtgXV\
    AAsAACkBCQEhCQEhCQEhAQS2/s/+4/7k/s8Btv5WATEBEAERATH+WAHu/hIC9gLf/iUB2/0hAAEACAAABMkF1QAIAAAT\
    IQkBIQERIREIAT4BIgEjAT7+M/7ZBdX9qAJY/Hf9tAJMAAAAAAABAHMAAASJBdUACQAAEyEVASERITUBIYkD8v1MAsL7\
    6gKf/XcF1fT8I/789APdAAABAab+8gOiBhQABwAAASEVIxEzFSEBpgH88vL+BAYUvvpavgABAG//QgRgBdUAAwAACQEj\
    AQFOAxLf/O4F1fltBpMAAAAAAAABAS/+8gMrBhQABwAAAREhNTMRIzUDK/4E8vIGFPjevgWmvgABADkDqASYBdUABgAA\
    CQEjCQEjAQLjAbXy/sL+w/IBtQXV/dMBLf7TAi0AAAEAAP4dBNH+2wADAAABFSE1BNH7L/7bvr4AAAAAAAAAAQDHBO4C\
    /AZmAAMAAAkBIwEB4QEbxf6QBmb+iAF4AAAAAAAAAgBe/+MEVAR7AAoAJQAAASIGFRQWMzI2PQElESE1DgEjIiY1NDYh\
    MzU0JiMiBgc1PgEzIBYCvKSCWk10gAEj/t01pmS/1f4BCstnZGnFa2HIcAER3QIOVGZMWq+dFHH9gX1KUMq1xLsxR0k1\
    OvooJt4AAAACAJb/4wR3BhQACwAcAAABNCYjIgYVFBYzMjYBPgEzMhIREAIjIiYnFSERIQNSbF9fbm5fX2z+aDaPWsfX\
    1MBlli7+3AEkAi2iuLiiori4AjZdXf7Q/uT+6P7MYmGmBhQAAAAAAQCo/+MEJQR9ABkAACUOASMgABEQACEyFhcRLgEj\
    IgYVFBYzMjY3BCVKqmL+/f7cASYBA1qnU0CZUo+amo9VlEI5KysBOAEUARUBOSos/vQ3O7aoqLQ5OgAAAAACAFr/4wQ7\
    BhQAEAAcAAABESERITUOASMiAhEQEjMyFgEUFjMyNjU0JiMiBgMXAST+3C+VZcDU18daj/6ebF9fbm5fX2wDwQJT+eym\
    YWIBNAEYARwBMF3+D6K4uKKiuLgAAAAAAgBc/+MEfQR7ABQAGwAAJQ4BIyAAERAAMzIAERUhHgEzMjY3Ay4BIyIGBwRO\
    ZtR2/uf+1wEe9/kBE/0JAZqZZcRr+AJzcGV4CzcqKgEtARsBEgE+/tn+9HeEgjo/AWl0d3txAAEArgAABDsGFAATAAAB\
    FSEVIREhESE1ITU0NjsBFSMiBgLjAVj+qP7b/vABEKjk8eVCLwTCYuH8gQN/4U7KnOEwAAAAAgBi/lgESAR9AAsAKAAA\
    ATQmIyIGFRQWMzI2ARAGISImJxEeATMyNj0BDgEjIgIREBIzMhYXNSEDI3JdXHFxXF1yASXz/u9ctF1TrFt8diuOZsDi\
    4r5glisBJQJClrW0l5i0tf6p/vPvGxwBDS4sdXx5UE4BLAEBAQoBOFpSjwAAAAAAAQCsAAAELwYUABMAAAERIRE0JiMi\
    BhURIREhET4BMzIWBC/+3UVOUFr+3QEjH5Zqn6IC1/0pAqp5aI19/X8GFP2kXWbTAAAAAgCPAAAEjQaBAAkADQAAEyER\
    IRUhNSERIQEhESHdAkQBbPwCAW3+4QEfASX+2wRg/IHh4QKeAwL+qgAAAAAAAAIAj/5YA1IGgQANABEAACUUBiMhNTMy\
    NjURITUhNSERIQNStdL+xOpiUv7XAk7+2wElK/zX4W6EA1ThywFWAAAAAAAAAQCuAAAErgYUAAsAABMhEQEhCQEhAQcR\
    Ia4BJQFgAWP+WAHA/rz+zWT+2wYU/M8Bff5e/UICDGD+VAAAAQBaAAAERgYUAA0AAAERITUhERQWOwEVISImAYP+1wJO\
    UmLq/sTRtgHTA2Dh+7+EbuHYAAAAAAABAFIAAASDBHsAIgAAAT4BMzIWGQEjETQmIyIGFREjETQmIyIGFREjETMVPgEz\
    MhYCsiFmSpFv8CYyMijtKDIyJvDVGW5ERHAD8EdEyP7E/YkCz31UVnv9MQLPe1ZUff0xBGB0Qk1RAAEArAAABC8EewAT\
    AAABESERNCYjIgYVESERIRU+ATMyFgQv/t1FTk9b/t0BIx+Wap+iAtf9KQKqemmOfv1/BGCoXWbTAAAAAAIAYv/jBG8E\
    ewALABcAAAEiBhUUFjMyNjU0JgEQADMyABEQACMiAAJoaXh4aWp4eP2QARnt7gEZ/ufu7f7nA425paW5uaWluf6iAQ8B\
    Pf7D/vH+8f7DAT0AAAAAAgCW/lYEdwR7ABAAHAAAJREhESEVPgEzMhIREAIjIiYBNCYjIgYVFBYzMjYBuv7cASQulmXA\
    1NfHWo8BYmxfX25uX19snv24BgqoYWL+zP7o/uT+0F0B8aK4uKKiuLgAAAAAAAIAWv5WBDsEewALABwAAAEUFjMyNjU0\
    JiMiBgEOASMiAhEQEjMyFhc1IREhAX9sX19ubl9fbAGYNo9ax9fUwGWVLwEk/twCMaK4uKKiuLj9y15dATABHAEYATRi\
    Yaj59gAAAAABASMAAAR/BHsAFAAAAS4BIyIGBw4BFREhESEVPgEzMhYXBH8wgU1diyYYE/7bASUrsnc8czQDKywsQT4m\
    bG79/ARgrmBpHRwAAAAAAQCs/+MEKwR7ACcAAAERLgEjIgYVFB8CHgEVFAYjIiYnER4BMzI2NTQmLwEuATU0NjMyFgPf\
    Ua9YYmTWC1SglePkZdRtYcleZ2pLjVGomurUX70EPf8ANDU5OFAyAxQmqZCtrSMjAQA3Ojw5ODwiEiaiiKK0HwAAAQBv\
    AAAEMQWeABMAAAERIRUhERQWOwEVIyImNREhNSERArIBf/6BSVXh9vyy/uIBHgWe/sLh/e5LQeGh2gIE4QE+AAABAKD/\
    4wQlBGAAEwAAExEhERQWMzI2NREhESE1DgEjIiagASVET09ZASX+2x+VaaCjAYcC2f1UeWiMfgKD+6CmXWbUAAEAUAAA\
    BIEEYAAGAAAJASEBIRsBBIH+nP6X/pwBKe/wBGD7oARg/JYDagAAAQAAAAAE0QRgAAwAABEzGwEzGwEzAyELASH0hXnt\
    d4f0y/7qiIf+6gRg/KYCNf3LA1r7oAJG/boAAAAAAQA3AAAEmgRgAAsAAAkCIQsBIQkBIRsBBHn+hwGa/qrc2/6qAZ7+\
    gwFWursEYP3o/bgBef6HAkgCGP6yAU4AAAAAAAABADv+WASYBGAADwAABQ4BKwE1MzI2PwEBIQETIQLHO6V28ndaVCsW\
    /lYBNAEA9QE0eZ6R3z1vPARB/SkC1wAAAAAAAAEAogAABDkEYAAJAAATIRUBIRUhNQEhugN//bMCTfxpAk79ygRg5f1g\
    2+UCoAAAAAEAsP6yBB0GFAAkAAAFFSMiJj0BNCYrATUzMjY9ATQ2OwEVIyIGHQEUBgceAR0BFBYzBB2W+alrjD4+jGup\
    +ZZ7aEZifn5iRmiPv5Td15dzv3KY192TvlSP0aWGExWIpM2QVQAAAAAAAQH2/h0C2QYdAAMAAAERIxEC2eMGHfgACAAA\
    AAEAtP6yBCEGFAAkAAAXMzI2PQE0NjcuAT0BNCYrATUzMhYdARQWOwEVIyIGHQEUBisBtHloSGJ9fmFHaXmW+KdtjT4+\
    jW2n+JaPVo/NpIgVE4al0Y1WvpPd15dzv3SW192UAAABAFgBzwR5AysAGwAAARUOASMiJyYnLgEjIgYHNT4BMzIWFxYX\
    FjMyNgR5S49PWnEWC01nM06NSk6SUzVkSgsWdF1GigMr6Tw3MwoEIhg6P+U9NhYfBQo3PQAAAAAAAAAB/+z+AATlB4EA\
    AwAAAxEhERQE+f4ACYH2fwAACgAA/hQE0QdtAAMABwALAA8AEwAXABsAHwAjAEEAAAEzNSMBMzUjBTM1IwEzNSMBMzUj\
    BTM1IwEzNSMBMzUjBTM1IwMhESM1IxUhNSMVIREzNSMRMzUjETM1IxEzNSEVMwJompr+zJqaAmibm/7Mmpr+zJqaAmib\
    m/7Mmpr+zJqaAmibm5oBz5qb/jKa/syZmZmZmZmZAc+aBCPd/e3e3t7969797d3d3f3s3QUz3d3dATb2p93d3d0BNt0B\
    j94Bj90BkN3dAAAeAAD+FATRB2wAAwAHAAsADwATABcAGwAfACMAJwArAC8AMwA3ADsAPwBDAEcASwBPAFMAVwBbAF8A\
    YwBnAGsAbwBzAHcAAAE1MxUlNTMVAzUzHQE1MxUFNTMdATUzFQU1Mx0BNTMVATUzFSU1MxUDNTMdATUzFQU1Mx0BNTMV\
    BTUzHQE1MxUBNTMVJTUzFQM1Mx0BNTMVBTUzHQE1MxUFNTMdATUzFQE1MxUlNTMVBTUzFSU1MxUFNTMVJTUzFQQEzf5l\
    zs7Ozf5lzs3+Zc7N/ZjN/mbNzc3N/mbNzf5mzc39ltD+ZMzMzND+ZMzQ/mTM0AJozf5lzv5lzf5mzf5j0P5kzAOv8PDw\
    7+/+Ie/v7+/v7+/v8PDw7+/v7+/vBZvw8PDv7/4h7+/v7+/v7+/w8PDv7+/v7+8Fm/Dw8O/v/iHv7+/v7+/v7/Dw8O/v\
    7+/v7wd67+/v7+/v7+/v7+/v7+/v7+8AAAAQAAD+FAQ4B20AAwAHAAsADwATABcAGwAfACMAJwArAC8AMwA3ADsAPwAA\
    ATUzFSE1MxUTNTMVITUzFQE1MxUhNTMVEzUzFSE1MxUBNTMVITUzFRM1MxUhNTMVATUzFSE1MxUTNTMVITUzFQOdm/z9\
    mpqa/P2aAwOb/P2ampr8/ZoDA5v8/Zqamvz9mgMDm/z9mpqa/P2aBVrd3d3dATbd3d3d94Td3d3dATbd3d3dATfd3d3d\
    ATXe3t7eATfe3t7eATbd3d3dAAEAAAACXrjfkaqlXw889QAfCAAAAAAA4DCcVwAAAADgMJxX/G382QXbCFQAAQAIAAIA\
    AQAAAAAAAQAAB23+HQAABNH8bf74BdsAAQAAAAAAAAAAAAAAAAAAAGQE0QBoBNEAAATRAeME0QDnBNEAAgTRAKQE0QAh\
    BNEAJQTRAecE0QF/BNEBNQTRAHkE0QBCBNEBagTRAS0E0QHBBNEAcQTRAHsE0QC8BNEAcwTRAH0E0QBmBNEAjwTRAIME\
    0QCHBNEAgQTRAG8E0QHBBNEBcwTRAFgE0QBYBNEAWATRAOkE0QAGBNEAIQTRAH0E0QCYBNEAiQTRAKgE0QC2BNEAdQTR\
    AIkE0QCsBNEAbQTRAHUE0QDhBNEAVgTRAHcE0QBcBNEAogTRAFwE0QCFBNEAgQTRAFoE0QBqBNEAOQTRAAAE0QAbBNEA\
    CATRAHME0QGmBNEAbwTRAS8E0QA5BNEAAATRAMcE0QBeBNEAlgTRAKgE0QBaBNEAXATRAK4E0QBiBNEArATRAI8E0QCP\
    BNEArgTRAFoE0QBSBNEArATRAGIE0QCWBNEAWgTRASME0QCsBNEAbwTRAKAE0QBQBNEAAATRADcE0QA7BNEAogTRALAE\
    0QH2BNEAtATRAFgE0f/sBNEAAATRAAAE0QAAAAAAAAAAACwAAAAsAAAAYAAAAIwAAAEAAAABnAAAAkAAAALwAAADEAAA\
    A0wAAAOIAAAD2AAABAwAAAQ0AAAEUAAABGwAAASMAAAFCAAABTwAAAWkAAAGJAAABmQAAAbIAAAHRAAAB2wAAAf4AAAI\
    dAAACKAAAAjUAAAJBAAACSwAAAlYAAAJ0AAACnQAAAqwAAALIAAAC4AAAAvMAAAMAAAADDAAAAycAAAM1AAADQwAAA1Q\
    AAANjAAADawAAA3kAAAOGAAADnwAAA7IAAAPOAAAD6QAABAgAAAQSAAAEJAAABC8AAAQ+AAAETgAABFsAAARnAAAEcAA\
    ABHkAAASCAAAEjQAABJUAAASeAAAEuwAABNQAAATrAAAFBAAABR0AAAUuAAAFTwAABWEAAAVxAAAFggAABZEAAAWfAAA\
    FuQAABcsAAAXiAAAF+wAABhQAAAYnAAAGRQAABlYAAAZnAAAGcgAABoEAAAaSAAAGowAABq8AAAbJAAAG0AAABukAAAc\
    BAAAHCAAABzoAAAeUAAAHxgAAQAAAGQCJAArAGUABgACABAAQAAIAAADrwEkAAUABA==\
";

/// A font of five full-width glyphs, in Base64.
const WIDE: &str = "\
    AAEAAAAHABAAAAAAY21hcAAAAAAAAAB8AAAATGdseWYAAAAAAAAAyAAAAMhoZWFkAAAAAAAAAZAAAAA2aGhlYQAAAAAA\
    AAHIAAAAJGhtdHgAAAAAAAAB7AAAABhsb2NhAAAAAAAAAgQAAAAcbWF4cAAAAAAAAAIgAAAAIAAAAAEAAwABAAAADAAE\
    AEAAAAAMAAAAAAAAMEIwojExTgCfmP//AAAwQjCiMTFOAJ+Y///Pv89gztKyBGBtAAEAAAAAAAAAAAAAAAAAAQDIAGQD\
    IAJYAAMAAAEBAQEAyAAAAlgAAABkAfQAAP4MAAAAAQDIAGQDIAH0AAMAAAEBAQEAyAAAAlgAAABkAZAAAP5wAAAAAgBk\
    /84DhAJYAAMABwAAAQEBAQEBAQEAZAAAAyAAAP+cAAAAZAAAAfQAZAAA/5z92gKKAAD9dgABADIBGAO2AVQAAwAAAQEB\
    AQAyAAADhAAAARgAPAAA/8QAAAABADL/agO2Au4AAwAAAQEBAQAyAAADhAAA/2oDhAAA/HwAAAABAAAAAQAAAAAAAF8P\
    PPUAAAPoAAAAAAAAAAAAAAAAAAAAAAAA/zgD6AMgAAAACAACAAEAAAAAAAEAAAMg/zgAAAPoAAAAAAPoAAEAAAAAAAAA\
    AAAAAAAAAAAGA+gAAAPoAMgD6ADIA+gAZAPoADID6AAyAAAAAAAAAAAAAAAkAAAASAAAAIAAAACkAAAAyAABAAAABgBA\
    AAgAAAAAAAEAAAAAAAAAAAAAAAAAAAAA\
";

fn decode_base64(text: &str) -> Vec<u8> {
    let mut out = Vec::new();
    let (mut bits, mut n) = (0u32, 0);
    for c in text.chars() {
        let v = match c {
            'A'..='Z' => c as u32 - 'A' as u32,
            'a'..='z' => c as u32 - 'a' as u32 + 26,
            '0'..='9' => c as u32 - '0' as u32 + 52,
            '+' => 62,
            '/' => 63,
            _ => continue,
        };
        bits = (bits << 6) | v;
        n += 6;
        if n >= 8 {
            n -= 8;
            out.push((bits >> n) as u8);
            bits &= (1 << n) - 1;
        }
    }
    out
}

fn fonts() -> FontStack {
    FontStack::embedded(decode_base64(MONO), vec![decode_base64(WIDE)]).unwrap()
}

fn single(v: f32) -> Single {
    Single { bits: v.to_bits() }
}

/// A picture with broad tones, fine texture and colors in it.
fn picture() -> RgbaImage {
    let (w, h) = (480u32, 320u32);
    let mut img = RgbaImage::new(w, h);
    let mut seed = 1u32;
    for y in 0..h {
        for x in 0..w {
            seed = seed.wrapping_mul(1664525).wrapping_add(1013904223);
            let tone = 20 + (x * 90 / w + y * 90 / h) / 2;
            // Diagonal stripes, finer than a cell.
            let stripe = if (x + y) % 24 < 12 { 130 } else { 0 };
            let noise = (seed >> 28) & 7;
            let v = (tone + stripe + noise).min(255) as u8;
            img.put_pixel(x, y, [v, v, 255 - v / 2, 255]);
        }
    }
    img
}

fn options(width: u32, charset: Charset) -> Options {
    Options { width, charset, ..Options::default() }
}

fn named(name: &str) -> Charset {
    resolve(name, &fonts()).unwrap()
}

fn encoded(img: &RgbaImage) -> Vec<u8> {
    let (w, h) = img.dimensions();
    let img = image::RgbaImage::from_raw(w, h, img.as_raw().clone()).unwrap();
    let mut buf = std::io::Cursor::new(Vec::new());
    img.write_to(&mut buf, image::ImageFormat::Png).unwrap();
    buf.into_inner()
}

fn parsed(text: &str) -> serde_json::Value {
    serde_json::from_str(text).unwrap()
}

fn common(charset: &str) -> CommonArgs {
    CommonArgs {
        charset: charset.to_string(),
        alpha_threshold: DEFAULT_ALPHA_THRESHOLD,
        threshold: None,
    }
}

fn txt_args() -> TxtArgs {
    TxtArgs { invert: false, aspect: single(2.0), ansi: false, json: false }
}

fn render_args(background: Background) -> RenderArgs {
    RenderArgs {
        color: false,
        background,
        font_px: single(16.0),
        invert: None,
        no_crop: false,
        aspect: None,
    }
}

fn txt(bytes: &[u8], width: u32, charset: &str, args: TxtArgs) -> String {
    let opts = txt_options(width, &common(charset), &args, &fonts()).unwrap();
    run_txt(bytes, draw(bytes, opts.width), &opts, &args).unwrap().text
}

/// Reads and draws an input that is a document, the way the program does.
fn draw(bytes: &[u8], width: u32) -> Drawing {
    if !is_svg(bytes) {
        return Drawing::none();
    }
    let tree = usvg::Tree::from_data(bytes, &usvg::Options::default()).unwrap();
    let size = Some((single(tree.size().width()), single(tree.size().height())));
    let (w, h, scale) = svg_job(size, svg_target_px(width)).unwrap();
    let mut pixmap = tiny_skia::Pixmap::new(w, h).unwrap();
    let scale = f32::from_bits(scale.bits);
    let transform = tiny_skia::Transform::from_scale(scale, scale);
    resvg::render(&tree, transform, &mut pixmap.as_mut());
    Drawing { size, pixels: Some(pixmap.take()) }
}

#[test]
fn fixture_converts_to_text_with_expected_shape() {
    let grid = convert(&picture(), &options(150, named("complex"))).unwrap();
    assert_eq!(grid.cols, 150);
    assert!(grid.rows > 10, "fixture should yield a real grid");

    let text = to_text(&grid);
    assert_eq!(text.lines().count(), grid.rows as usize);
    // A photo must produce more than one distinct character.
    let distinct: std::collections::HashSet<char> = text.chars().collect();
    assert!(distinct.len() > 5, "expected varied output, got {distinct:?}");
}

#[test]
fn fixture_renders_to_png_in_all_modes() {
    let cs = named("complex");
    let grid = convert(&picture(), &options(80, cs.clone())).unwrap();
    for (bg, colored) in [
        (Background::Black, false),
        (Background::White, false),
        (Background::Black, true),
        (Background::Transparent, true),
    ] {
        let opts = PaintOptions::new(&fonts(), &cs, single(12.0))
            .unwrap()
            .background(bg)
            .colored(colored);
        let img = paint_png(&grid, &fonts(), &opts).unwrap();
        assert!(img.width() > 0 && img.height() > 0);
        // Output must not be a flat canvas.
        let first = img.get_pixel(0, 0);
        assert!(
            img.as_raw().chunks(4).any(|p| p != first),
            "PNG output is flat for bg={bg:?} colored={colored}"
        );
    }
}

#[test]
fn fixture_json_output_is_valid_and_complete() {
    let cs = named("simple");
    let grid = convert(&picture(), &options(60, cs.clone())).unwrap();
    let doc = parsed(&to_json(&grid, &cs, false, true));
    assert_eq!(doc["cols"].as_u64().unwrap(), 60);
    assert_eq!(doc["mode"], "ramp");
    let lines = doc["lines"].as_array().unwrap();
    let colors = doc["colors"].as_array().unwrap();
    assert_eq!(lines.len(), colors.len());
    assert!(colors[0][0].as_str().unwrap().starts_with('#'));
    // An opaque picture carries no alpha, so the field stays absent.
    assert!(doc.get("alpha").is_none());
}

#[test]
fn braille_resolves_more_detail_than_a_ramp() {
    // Score only the signal that lives *inside* a cell: variation around each
    // cell's own mean. That is exactly the detail one-character-per-cell throws
    // away, so a ramp scores about half here, and braille has to beat that.
    let src = picture();
    let ramp = named("complex");
    let braille = convert(&src, &options(60, Charset::Braille)).unwrap();
    let cells = convert(&src, &options(60, ramp.clone())).unwrap();
    assert_eq!((braille.cols, braille.rows), (cells.cols, cells.rows));
    assert!(braille
        .chars
        .iter()
        .all(|&c| c == ' ' || ('\u{2800}'..='\u{28FF}').contains(&c)));

    let (dot_w, dot_h) = (braille.cols * 2, braille.rows * 4);
    let cell_h = src.width() as f64 / braille.cols as f64 * 2.0;
    let covered = (braille.rows as f64 * cell_h) as u32;
    let plain =
        image::RgbaImage::from_raw(src.width(), src.height(), src.as_raw().clone()).unwrap();
    let truth = image::imageops::resize(
        &*image::imageops::crop_imm(&plain, 0, 0, src.width(), covered),
        dot_w,
        dot_h,
        image::imageops::FilterType::Triangle,
    );
    let luma = |p: &image::Rgba<u8>| {
        0.299 * p.0[0] as f32 + 0.587 * p.0[1] as f32 + 0.114 * p.0[2] as f32
    };

    let ramp = ramp.ramp().unwrap();
    let (mut braille_hits, mut ramp_hits, mut scored) = (0u32, 0u32, 0u32);
    for row in 0..braille.rows {
        for col in 0..braille.cols {
            let dots: Vec<f32> = (0..8)
                .map(|i| luma(truth.get_pixel(col * 2 + i % 2, row * 4 + i / 2)))
                .collect();
            let mean = dots.iter().sum::<f32>() / 8.0;
            let sd = (dots.iter().map(|d| (d - mean).powi(2)).sum::<f32>() / 8.0).sqrt();
            // Only judge cells that *have* sub-cell structure.
            if sd < 20.0 {
                continue;
            }

            let ch = braille.char_at(row, col);
            let bits = if ch == ' ' { 0 } else { ch as u32 - 0x2800 };
            // One character per cell means one tone for all eight dots.
            let idx = ramp
                .iter()
                .position(|&c| c == cells.char_at(row, col))
                .expect("ramp character");
            let cell_tone = idx as f32 / (ramp.len() - 1) as f32 * 255.0;

            for (i, dot) in dots.iter().enumerate() {
                let bit = match (i % 2, i / 2) {
                    (0, 0) => 0x01,
                    (0, 1) => 0x02,
                    (0, 2) => 0x04,
                    (0, 3) => 0x40,
                    (1, 0) => 0x08,
                    (1, 1) => 0x10,
                    (1, 2) => 0x20,
                    _ => 0x80,
                };
                let dark = *dot < mean;
                braille_hits += u32::from((bits & bit != 0) == dark);
                ramp_hits += u32::from((cell_tone < mean) == dark);
                scored += 1;
            }
        }
    }

    assert!(scored > 500, "not enough textured cells to judge ({scored})");
    let (braille_acc, ramp_acc) =
        (braille_hits as f32 / scored as f32, ramp_hits as f32 / scored as f32);
    assert!(
        braille_acc > 0.65 && braille_acc > ramp_acc + 0.15,
        "sub-cell structure: braille {braille_acc:.3} vs ramp {ramp_acc:.3} over {scored} dots"
    );
}

#[test]
fn transparent_logo_stays_a_cutout_through_the_whole_pipeline() {
    // A red disc on a fully transparent canvas, as exported by any design tool.
    let mut src = RgbaImage::from_pixel(120, 120, [0, 0, 0, 0]);
    for y in 0..120u32 {
        for x in 0..120u32 {
            let (dx, dy) = (x as f32 - 60.0, y as f32 - 60.0);
            if dx * dx + dy * dy < 40.0 * 40.0 {
                src.put_pixel(x, y, [220, 30, 30, 255]);
            }
        }
    }
    let png = encoded(&src);

    // txt: the corners must be blank with default flags.
    let text = txt(&png, 40, "complex", txt_args());
    let lines: Vec<&str> = text.lines().collect();
    assert!(lines[0].trim().is_empty(), "top row not blank:\n{text}");
    assert!(lines[lines.len() / 2].trim().len() > 3, "middle row lost the subject");

    // img on a transparent canvas: its only opaque pixels are glyphs.
    let args = RenderArgs { color: true, ..render_args(Background::Transparent) };
    let r = Renderer::new(&common("complex"), &args, 40, fonts()).unwrap();
    let painted = match run_img(&png, Drawing::none(), "logo.png", "logo_ascii.png", &r).unwrap().picture {
        Picture::Still(still) => still.image,
        Picture::Animation(_) => panic!("a still became an animation"),
    };
    let pixels: Vec<&[u8]> = painted.as_raw().chunks(4).collect();
    assert!(pixels.iter().any(|p| p[3] == 0), "no transparency");
    assert!(pixels.iter().any(|p| p[3] > 200), "no glyphs");
    // Reds survived; nothing turned into a black box.
    assert!(pixels.iter().filter(|p| p[3] > 200).any(|p| p[0] > 150 && p[1] < 120));
}

#[test]
fn svg_input_rasterizes_and_converts() {
    let svg = br##"<svg xmlns="http://www.w3.org/2000/svg" width="80" height="40">
             <rect x="0" y="0" width="40" height="40" fill="#101010"/>
           </svg>"##;
    let json = txt(svg, 20, "simple", TxtArgs { json: true, ..txt_args() });
    let doc = parsed(&json);
    assert_eq!(doc["cols"], 20);
    let first_line = doc["lines"][0].as_str().unwrap();
    // Left half is near-black ink, right half is transparent: blank.
    assert!(first_line[..10].contains('@'), "left half not inked: {first_line:?}");
    assert!(
        first_line.chars().skip(10).all(|c| c == ' '),
        "right half not blank: {first_line:?}"
    );
    // Transparency means the alpha field is present.
    assert!(doc["alpha"].is_array());
}

fn animate(frames: Vec<Frame>, args: RenderArgs, width: u32) -> Vec<Frame> {
    let src = write_gif_to(&frames).unwrap();
    let r = Renderer::new(&common("complex"), &args, width, fonts()).unwrap();
    let painted = run_img(&src, Drawing::none(), "in.gif", "out.gif", &r).unwrap();
    assert!(painted.truncated.is_none());
    match painted.picture {
        Picture::Animation(movie) => {
            assert_eq!(movie.frames, frames.len());
            assert_eq!(movie.cols, width);
            let decoded = decode_frames(&movie.file, Drawing::none(), 256).unwrap();
            assert_eq!(decoded[0].image.dimensions(), (movie.width, movie.height));
            decoded
        }
        Picture::Still(_) => panic!("animation collapsed to a still"),
    }
}

#[test]
fn animated_gif_round_trips_through_the_cli() {
    // A two-frame source animation: black frame, then white frame.
    let frames: Vec<Frame> = [0u8, 255]
        .into_iter()
        .map(|v| Frame { image: RgbaImage::from_pixel(64, 32, [v, v, v, 255]), delay_ms: 80 })
        .collect();
    let args = RenderArgs { color: true, no_crop: true, ..render_args(Background::Black) };
    let decoded = animate(frames, args, 20);
    assert_eq!(decoded.len(), 2, "animation collapsed to a still");
    assert_eq!(decoded[0].delay_ms, 80, "frame timing lost");
    assert_eq!(
        decoded[0].image.dimensions(),
        decoded[1].image.dimensions(),
        "frames must share one canvas"
    );
    // Default invert on a black background: the white frame draws dense glyphs,
    // the black frame draws none.
    let lit = |f: &Frame| f.image.as_raw().chunks(4).filter(|p| p[0] > 128).count();
    assert!(
        lit(&decoded[1]) > lit(&decoded[0]),
        "frames are indistinguishable ({} vs {})",
        lit(&decoded[0]),
        lit(&decoded[1])
    );
}

fn moving() -> Vec<Frame> {
    // Frame 1 is blank, frame 2 draws top-left, frame 3 draws bottom-right.
    let blank = RgbaImage::from_pixel(80, 80, [255, 255, 255, 255]);
    let mut top_left = blank.clone();
    let mut bottom_right = blank.clone();
    for y in 0..20 {
        for x in 0..20 {
            top_left.put_pixel(x, y, [0, 0, 0, 255]);
            bottom_right.put_pixel(x + 60, y + 60, [0, 0, 0, 255]);
        }
    }
    [blank, top_left, bottom_right]
        .into_iter()
        .map(|image| Frame { image, delay_ms: 50 })
        .collect()
}

#[test]
fn animation_cropping_keeps_every_frame_whole() {
    // Cropping to the first frame that has content would guillotine the other
    // corner, and a blank first frame would leave frames of different sizes,
    // which is not encodable at all.
    let decoded = animate(moving(), render_args(Background::White), 40);
    assert_eq!(decoded.len(), 3);
    let size = decoded[0].image.dimensions();
    assert!(
        decoded.iter().all(|f| f.image.dimensions() == size),
        "frames disagree on size: {:?}",
        decoded.iter().map(|f| f.image.dimensions()).collect::<Vec<_>>()
    );

    // Both corners survived the crop, each in its own frame and its own half.
    let ink = |f: &Frame, right: bool, bottom: bool| {
        let (w, h) = f.image.dimensions();
        let xs = if right { w / 2..w } else { 0..w / 2 };
        let ys = if bottom { h / 2..h } else { 0..h / 2 };
        ys.flat_map(|y| xs.clone().map(move |x| (x, y)))
            .filter(|&(x, y)| f.image.get_pixel(x, y)[0] < 128)
            .count()
    };
    assert!(ink(&decoded[1], false, false) > 0, "top-left frame lost its ink");
    assert!(ink(&decoded[2], true, true) > 0, "bottom-right frame was cropped away");
}

#[test]
fn the_shared_box_is_as_small_as_it_can_be() {
    let r = Renderer::new(&common("complex"), &render_args(Background::White), 40, fonts()).unwrap();
    let painted = render_animation(&moving(), &r).unwrap();
    let (w, h) = painted[0].image.dimensions();
    let drawn = |x: u32, y: u32| {
        painted.iter().any(|f| f.image.get_pixel(x, y) != [255, 255, 255, 255])
    };
    assert!((0..h).any(|y| drawn(0, y)));
    assert!((0..h).any(|y| drawn(w - 1, y)));
    assert!((0..w).any(|x| drawn(x, 0)));
    assert!((0..w).any(|x| drawn(x, h - 1)));
}

#[test]
fn frames_of_different_sizes_are_refused() {
    let r = Renderer::new(&common("simple"), &render_args(Background::White), 8, fonts()).unwrap();
    let frames = vec![
        Frame { image: RgbaImage::from_pixel(80, 80, [0, 0, 0, 255]), delay_ms: 5 },
        Frame { image: RgbaImage::from_pixel(80, 20, [0, 0, 0, 255]), delay_ms: 5 },
    ];
    let e = render_animation(&frames, &r).unwrap_err();
    assert!(matches!(e, PipelineError::Anim(AnimError::Ragged(..))));
}

#[test]
fn an_animation_for_a_still_format_uses_its_first_frame() {
    let src = write_gif_to(&moving()).unwrap();
    let args = RenderArgs { no_crop: true, ..render_args(Background::White) };
    let r = Renderer::new(&common("complex"), &args, 100, fonts()).unwrap();
    let painted = run_img(&src, Drawing::none(), "in.gif", "out.png", &r).unwrap();
    assert_eq!(
        painted.truncated.unwrap(),
        "note: 'in.gif' has 3 frames; writing frame 1 only (use a .gif output to animate)"
    );
    assert_eq!(painted.clamped.unwrap(), "note: --width 100 clamped to image width (80 columns)");
    match painted.picture {
        Picture::Still(still) => assert_eq!(still.cols, 80),
        Picture::Animation(_) => panic!("not a still"),
    }
}

#[test]
fn cropping_trims_the_canvas_and_can_be_turned_off() {
    // Content in the middle only, so there is something to trim.
    let mut src = RgbaImage::from_pixel(80, 80, [255, 255, 255, 255]);
    for y in 30..50 {
        for x in 30..50 {
            src.put_pixel(x, y, [0, 0, 0, 255]);
        }
    }
    let png = encoded(&src);
    let size = |no_crop: bool| {
        let args = RenderArgs { no_crop, ..render_args(Background::White) };
        let r = Renderer::new(&common("complex"), &args, 40, fonts()).unwrap();
        match run_img(&png, Drawing::none(), "centered.png", "out.png", &r).unwrap().picture {
            Picture::Still(still) => still.image.dimensions(),
            Picture::Animation(_) => panic!("not a still"),
        }
    };
    let (cropped, full) = (size(false), size(true));
    assert!(
        cropped.0 < full.0 && cropped.1 < full.1,
        "crop did not trim ({cropped:?} vs {full:?})"
    );
}

#[test]
fn cjk_charsets_render_real_glyphs_not_blanks() {
    let args = RenderArgs { no_crop: true, ..render_args(Background::Black) };
    let r = Renderer::new(&common("chinese"), &args, 40, fonts()).unwrap();
    // Bright, so that inverted brightness picks the densest glyph.
    let src = encoded(&RgbaImage::from_pixel(160, 120, [255, 255, 255, 255]));
    let img = match run_img(&src, Drawing::none(), "in.png", "cjk.png", &r).unwrap().picture {
        Picture::Still(still) => still.image,
        Picture::Animation(_) => panic!("not a still"),
    };
    let lit = img.as_raw().chunks(4).filter(|p| p[0] > 128).count();
    let total = (img.width() * img.height()) as usize;
    assert!(
        lit > total / 100,
        "chinese charset painted {lit}/{total} pixels; the font fallback is missing"
    );
}

#[test]
fn cli_surface_still_works() {
    // The list has every built-in.
    let listed = run_charsets(&fonts()).unwrap().join("\n");
    for name in NAMED {
        assert!(listed.contains(name), "{name} missing from `charsets`");
    }

    let png = encoded(&picture());
    let text = txt(&png, 40, "simple", txt_args());
    assert!(text.lines().count() > 3);

    // ANSI output carries truecolor escapes.
    let ansi = txt(&png, 40, "complex", TxtArgs { ansi: true, ..txt_args() });
    assert!(ansi.contains("\x1b[38;2;"));

    // Unknown charsets fail loudly rather than silently defaulting.
    let e = txt_options(100, &common("klingon"), &txt_args(), &fonts()).unwrap_err();
    assert!(e.message().contains("unknown charset"));
}

#[test]
fn charset_lines_are_aligned() {
    assert_eq!(
        describe_charset("simple", &named("simple")),
        "simple       @%#*+=-:. "
    );
    assert_eq!(describe_charset("braille", &Charset::Braille), "braille      ⣿⡿⠿⠟⠛⠋⠉⠁⠀");
    assert_eq!(
        describe_charset("a rather long name", &Charset::Ramp(vec!['x'])),
        "a rather long name x"
    );
}

#[test]
fn widths_are_noted_only_when_clamped() {
    assert_eq!(note_clamped_width(40, 40), None);
    assert_eq!(
        note_clamped_width(7, 100).unwrap(),
        "note: --width 100 clamped to image width (7 columns)"
    );
}

#[test]
fn text_commands_report_their_errors() {
    let opts = txt_options(10, &common("simple"), &txt_args(), &fonts()).unwrap();
    let e = run_txt(b"nonsense", Drawing::none(), &opts, &txt_args()).unwrap_err();
    assert!(e.message().starts_with("input is not a supported image format"));
    let args = TxtArgs { aspect: single(0.0), ..txt_args() };
    let opts = txt_options(10, &common("simple"), &args, &fonts()).unwrap();
    let e = run_txt(&encoded(&picture()), Drawing::none(), &opts, &args).unwrap_err();
    assert_eq!(e.message(), "aspect must be a positive, finite number");
}

#[test]
fn text_is_composited_onto_the_terminal() {
    let args = TxtArgs { invert: true, ..txt_args() };
    let opts = txt_options(10, &common("simple"), &args, &fonts()).unwrap();
    assert_eq!(opts.matte, Some([0, 0, 0]));
    let opts = txt_options(10, &common("simple"), &txt_args(), &fonts()).unwrap();
    assert_eq!(opts.matte, Some([255, 255, 255]));
}

#[test]
fn renderers_follow_the_background_and_the_font() {
    let black = Renderer::new(&common("simple"), &render_args(Background::Black), 9, fonts()).unwrap();
    assert!(black.engine.invert);
    assert_eq!(black.engine.matte, Some([0, 0, 0]));
    assert_eq!(black.engine.aspect, single(16.0 / 9.0));
    assert!(black.paint.crop);
    let forced = RenderArgs {
        invert: Some(false),
        aspect: Some(single(2.5)),
        ..render_args(Background::Transparent)
    };
    let forced = Renderer::new(&common("braille"), &forced, 9, fonts()).unwrap();
    assert!(!forced.engine.invert);
    assert_eq!(forced.engine.aspect, single(2.5));
    assert_eq!(forced.engine.matte, None);
    let bad = RenderArgs { font_px: single(0.0), ..render_args(Background::White) };
    let e = Renderer::new(&common("simple"), &bad, 9, fonts()).unwrap_err();
    assert_eq!(e.message(), "font_px must be between 1 and 512 (got 0)");
    let e = Renderer::new(&common("custom:"), &bad, 9, fonts()).unwrap_err();
    assert!(matches!(e, PipelineError::Charset(_)));
}

#[test]
fn video_frames_share_the_box_of_the_first_one() {
    let args = RenderArgs { color: true, ..render_args(Background::White) };
    let r = Renderer::new(&common("simple"), &args, 16, fonts()).unwrap();
    let mut bounds = None;
    let sources = moving();
    let off = single(0.0);
    let first =
        convert_frame(&sources[1].image, &r.fonts, &r.engine, &r.paint, off, &mut bounds).unwrap();
    let kept = bounds;
    let second =
        convert_frame(&sources[2].image, &r.fonts, &r.engine, &r.paint, off, &mut bounds).unwrap();
    assert_eq!(bounds, kept);
    assert_eq!(first.dimensions(), second.dimensions());
    assert_eq!((first.width() % 2, first.height() % 2), (0, 0));
    assert!(first.as_raw().chunks(4).any(|p| p != [255, 255, 255, 255]));
    // A blank first frame keeps the whole canvas.
    let mut whole = None;
    let blank =
        convert_frame(&sources[0].image, &r.fonts, &r.engine, &r.paint, off, &mut whole).unwrap();
    let b = whole.unwrap();
    assert_eq!((b.x0, b.y0), (0, 0));
    assert_eq!(blank.width(), b.x1 - b.x1 % 2);
}

#[test]
fn video_frames_carry_the_overlay() {
    let args = RenderArgs { no_crop: true, ..render_args(Background::Black) };
    let r = Renderer::new(&common("simple"), &args, 16, fonts()).unwrap();
    let source = RgbaImage::from_pixel(80, 40, [200, 10, 10, 255]);
    let mut bounds = None;
    let img =
        convert_frame(&source, &r.fonts, &r.engine, &r.paint, single(0.25), &mut bounds).unwrap();
    let (w, h) = img.dimensions();
    assert_eq!(img.get_pixel(w - 1, h - 1), [200, 10, 10, 255]);
    assert_ne!(img.get_pixel(0, 0), [200, 10, 10, 255]);
    assert_eq!(bounds, None);
}

#[test]
fn video_frames_report_their_errors() {
    let r = Renderer::new(&common("simple"), &render_args(Background::Black), 16, fonts()).unwrap();
    let mut bounds = None;
    let empty = RgbaImage::new(0, 0);
    let e = convert_frame(&empty, &r.fonts, &r.engine, &r.paint, single(0.0), &mut bounds);
    assert!(matches!(e, Err(VideoError::Convert(_))));
    assert_eq!(e.unwrap_err().message(), "input image is empty");
}

#[test]
fn sessions_count_frames_of_one_size() {
    let args = render_args(Background::White);
    let r = Renderer::new(&common("simple"), &args, 16, fonts()).unwrap();
    let spec = Spec { width: 80, height: 80, fps: Double { bits: 25.0f64.to_bits() } };
    let mut session = Session::start(spec, &VideoOptions::default()).unwrap();
    assert_eq!(session.fps, spec.fps);
    assert_eq!(session.after_decoding(true), Some(Failure::NoFrames));
    assert_eq!(session.after_decoding(false), Some(Failure::Decoder));
    let mut sizes = Vec::new();
    for frame in moving().into_iter().rev() {
        let raw = frame.image.into_raw();
        let image = session.next_frame(raw, &r.fonts, &r.engine, &r.paint).unwrap();
        sizes.push(image.dimensions());
    }
    assert_eq!(sizes[0], sizes[1]);
    assert_eq!(sizes[0], sizes[2]);
    let (width, height) = sizes[0];
    let stats = Stats { frames: 3, width, height };
    assert_eq!(session.stats, stats);
    assert_eq!(session.after_decoding(true), None);
    assert_eq!(session.after_encoding(true), Ok(stats));
    assert_eq!(session.after_encoding(false), Err(Failure::Encoder));
}

#[test]
fn sessions_start_only_with_acceptable_options() {
    let spec = Spec { width: 8, height: 8, fps: Double { bits: 25.0f64.to_bits() } };
    let bad = VideoOptions { overlay: single(1.5), ..VideoOptions::default() };
    assert_eq!(Session::start(spec, &bad).unwrap_err(), VideoError::BadOverlay);
}

#[test]
fn video_failures_name_the_files() {
    assert_eq!(Failure::Decoder.message("a.mp4", "b.mp4"), "ffmpeg failed to decode 'a.mp4'");
    assert_eq!(Failure::NoFrames.message("a.mp4", "b.mp4"), "'a.mp4' produced no frames");
    assert_eq!(Failure::Encoder.message("a.mp4", "b.mp4"), "ffmpeg failed to write 'b.mp4'");
}

fn params() -> Params {
    Params {
        version: None,
        tool: None,
        path: None,
        width: None,
        charset: None,
        invert: None,
        json: None,
    }
}

fn reply(action: Action) -> serde_json::Value {
    match action {
        Action::Reply(line) => parsed(&line),
        other => panic!("no reply: {other:?}"),
    }
}

#[test]
fn initialize_reports_server_info() {
    let asked = Params { version: Some("2025-03-26".to_string()), ..params() };
    let resp = reply(handle("1", "initialize", &asked, &fonts()));
    assert_eq!(resp["result"]["serverInfo"]["name"], "ascii-world");
    assert_eq!(resp["result"]["protocolVersion"], "2025-03-26");
    assert_eq!(resp["id"], 1);
    assert_eq!(resp["jsonrpc"], "2.0");
    let resp = reply(handle("1", "initialize", &params(), &fonts()));
    assert_eq!(resp["result"]["protocolVersion"], "2025-06-18");
}

#[test]
fn tools_list_exposes_image_to_ascii() {
    let resp = reply(handle("2", "tools/list", &params(), &fonts()));
    assert_eq!(resp["result"]["tools"][0]["name"], "image_to_ascii");
    let schema = &resp["result"]["tools"][0]["inputSchema"];
    assert_eq!(schema["required"][0], "path");
    assert_eq!(schema["properties"]["width"]["minimum"], 1);
    let said = schema["properties"]["charset"]["description"].as_str().unwrap();
    assert_eq!(
        said,
        format!(
            "Character set: one of {NAMED:?} or 'custom:<chars dark→light>' (default 'complex')"
        )
    );
}

#[test]
fn unknown_method_errors() {
    let resp = reply(handle("3", "nope", &params(), &fonts()));
    assert_eq!(resp["error"]["code"], -32601);
    assert_eq!(resp["error"]["message"], "method not found: nope");
}

#[test]
fn tool_call_with_missing_path_is_tool_error() {
    let call = Params { tool: Some("image_to_ascii".to_string()), ..params() };
    let resp = reply(handle("4", "tools/call", &call, &fonts()));
    assert_eq!(resp["result"]["isError"], true);
    assert_eq!(
        resp["result"]["content"][0]["text"],
        "error: missing required argument 'path'"
    );
}

#[test]
fn unknown_tools_are_refused() {
    let call = Params { tool: Some("dig \"it\"".to_string()), ..params() };
    let resp = reply(handle("\"a\"", "tools/call", &call, &fonts()));
    assert_eq!(resp["error"]["code"], -32602);
    assert_eq!(resp["error"]["message"], "unknown tool: dig \"it\"");
    assert_eq!(resp["id"], "a");
}

#[test]
fn lines_are_read_as_requests() {
    let f = fonts();
    assert!(matches!(serve_line(" \t", &f), Action::Ignore));
    // Notifications have no identifier.
    assert!(matches!(serve_line("{\"method\":\"ping\"}", &f), Action::Ignore));
    let resp = reply(serve_line("{\"id\": [1, {\"x\": null}], \"method\": \"ping\"}", &f));
    assert_eq!(resp["result"], parsed("{}"));
    assert_eq!(resp["id"], parsed("[1,{\"x\":null}]"));
    let resp = reply(serve_line("{\"id\":null}", &f));
    assert_eq!(resp["error"]["message"], "method not found: ");
    let resp = reply(serve_line("{oops", &f));
    assert_eq!(resp["error"]["code"], -32700);
    let expected = serde_json::from_str::<serde_json::Value>("{oops").unwrap_err().to_string();
    assert_eq!(resp["error"]["message"], format!("parse error: {expected}"));
    assert_eq!(resp["id"], serde_json::Value::Null);
    let line = "{\"id\":1,\"method\":\"initialize\",\"params\":{\"protocolVersion\":\"x\\ny\"}}";
    match serve_line(line, &f) {
        Action::Reply(text) => {
            assert!(!text.contains('\n'), "a reply has to be one line");
            assert_eq!(parsed(&text)["result"]["protocolVersion"], "x\ny");
        }
        other => panic!("no reply: {other:?}"),
    }
}

#[test]
fn tool_calls_open_their_image() {
    let f = fonts();
    let line = "{\"id\":7,\"method\":\"tools/call\",\"params\":{\"name\":\"image_to_ascii\",\"arguments\":{\"path\":\"/a.png\",\"width\":4294967298,\"charset\":\"simple\",\"json\":true}}}";
    let call = match serve_line(line, &f) {
        Action::Open(call) => call,
        other => panic!("no call: {other:?}"),
    };
    assert_eq!(call.path, "/a.png");
    assert_eq!(call.width, 2, "widths are taken modulo two to the power of 32");
    assert!(call.json && !call.invert);
    let black = RgbaImage::from_pixel(4, 4, [0, 0, 0, 255]);
    let resp = parsed(&finish_call(&call, &black));
    assert_eq!(resp["id"], 7);
    assert_eq!(resp["result"]["isError"], false);
    let doc = parsed(resp["result"]["content"][0]["text"].as_str().unwrap());
    assert_eq!(doc["lines"][0], "@@");
    let refused = parsed(&refuse_call(&call, "No such file"));
    assert_eq!(refused["result"]["isError"], true);
    assert_eq!(refused["result"]["content"][0]["text"], "error: No such file");
    // The file is read as what its path says, and its alpha is dropped.
    let faint = RgbaImage::from_pixel(4, 4, [0, 0, 0, 10]);
    assert_eq!(parsed(&answer_call(&call, &encoded(&faint))), resp);
    let garbage = parsed(&answer_call(&call, b"nonsense"));
    assert_eq!(garbage["result"]["isError"], true);
    let mut other = call;
    other.path = "/a.txt".to_string();
    let unknown = parsed(&answer_call(&other, &encoded(&faint)));
    let said = unknown["result"]["content"][0]["text"].as_str().unwrap();
    assert!(said.starts_with("error: ") && said.contains("txt"), "{said}");
    other.path = "/a.png".to_string();
    let call = other;
    let empty = parsed(&finish_call(&call, &RgbaImage::new(0, 1)));
    assert_eq!(empty["result"]["content"][0]["text"], "error: input image is empty");
}

#[test]
fn tool_calls_have_defaults() {
    let f = fonts();
    let line = "{\"id\":1,\"method\":\"tools/call\",\"params\":{\"name\":\"image_to_ascii\",\"arguments\":{\"path\":\"p\",\"width\":-3}}}";
    match serve_line(line, &f) {
        Action::Open(call) => {
            assert_eq!(call.width, 100);
            assert_eq!(call.charset, named("complex"));
            assert!(!call.json && !call.invert);
        }
        other => panic!("no call: {other:?}"),
    }
    let line = "{\"id\":1,\"method\":\"tools/call\",\"params\":{\"name\":\"image_to_ascii\",\"arguments\":{\"path\":\"p\",\"charset\":\"nope\",\"invert\":true}}}";
    let resp = reply(serve_line(line, &f));
    assert_eq!(resp["result"]["isError"], true);
    let said = resp["result"]["content"][0]["text"].as_str().unwrap();
    assert!(said.starts_with("error: unknown charset 'nope'. Use one of ["), "{said}");
    let line = "{\"id\":1,\"method\":\"tools/call\",\"params\":{\"name\":\"image_to_ascii\",\"arguments\":{\"path\":\"p\",\"invert\":true}}}";
    match serve_line(line, &f) {
        Action::Open(call) => assert!(call.invert),
        other => panic!("no call: {other:?}"),
    }
}

#[test]
fn pages_get_text_and_json() {
    let png = encoded(&RgbaImage::from_pixel(8, 8, [0, 0, 0, 255]));
    assert_eq!(image_to_ascii(&png, Drawing::none(), 4, "simple", false, &fonts()).unwrap(), "@@@@\n@@@@\n");
    assert_eq!(image_to_ascii(&png, Drawing::none(), 4, "simple", true, &fonts()).unwrap(), "    \n    \n");
    let doc = parsed(&image_to_json(&png, Drawing::none(), 4, "simple", false, false, &fonts()).unwrap());
    assert_eq!(doc["cols"], 4);
    assert!(doc.get("colors").is_none());
    assert!(image_to_ascii(&png, Drawing::none(), 4, "nope", false, &fonts()).is_err());
    assert!(image_to_json(b"", Drawing::none(), 4, "simple", false, true, &fonts()).is_err());
    assert_eq!(charset_names(), NAMED.to_vec());
    assert_eq!(version(), "0.4.0");
}
